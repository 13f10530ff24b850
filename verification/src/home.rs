//! The home directory of the user who runs the tool, and what depends on it.

use vstd::prelude::*;
use crate::config::{home_of, join, tree_home_of, without_repeats, ScanConfiguration};
use crate::text::strings_view;
use crate::tree::TreeIndex;

verus! {

/// Calls `whoami::username`, which asks the operating system for the name of
/// the user and falls back to a fixed name where it gets none. The name
/// depends on who runs the process, so the contract promises nothing of it.
#[verifier::external_body]
pub(crate) fn current_username() -> (user: String) {
    whoami::username()
}

/// The home directory of `user`, with its closing separator.
pub fn home_directory(user: &str, windows: bool) -> (home: String)
    ensures
        home@ == home_of(user@, windows),
{
    if windows {
        let head = join("C:\\Users\\", user);
        join(head.as_str(), "\\")
    } else {
        let head = join("/Users/", user);
        join(head.as_str(), "/")
    }
}

/// The home directory of `user` as the tree writes it.
pub fn tree_home(user: &str) -> (home: String)
    ensures
        home@ == tree_home_of(user@),
{
    join("/Users/", user)
}

/// The directories to search for the user who runs the tool: those of the
/// configuration under that user's home directory, each once.
pub fn scan_directories(config: &ScanConfiguration, windows: bool) -> (list: Vec<String>)
    ensures
        exists|user: Seq<char>|
            strings_view(list@) == without_repeats(#[trigger] config.wanted(home_of(user, windows))),
{
    let user = current_username();
    let home = home_directory(user.as_str(), windows);
    config.directories(home.as_str())
}

/// The top-level folders to show for the user who runs the tool.
pub fn display_roots(tree: &TreeIndex) -> (shown: Vec<String>)
    ensures
        exists|user: Seq<char>|
            tree.lists_roots(#[trigger] tree_home_of(user), strings_view(shown@)),
{
    let user = current_username();
    let home = tree_home(user.as_str());
    tree.root_paths(home.as_str())
}

/// The holding directory of `user`: the folder `PinnacleSortHolding` in the
/// home directory.
pub open spec fn holding_of(user: Seq<char>, windows: bool) -> Seq<char> {
    home_of(user, windows) + "PinnacleSortHolding"@
}

/// The holding directory of the user who runs the tool.
pub fn holding_directory(windows: bool) -> (holding: String)
    ensures
        exists|user: Seq<char>| holding@ == #[trigger] holding_of(user, windows),
{
    let user = current_username();
    let home = home_directory(user.as_str(), windows);
    let holding = join(home.as_str(), "PinnacleSortHolding");
    assert(holding@ == holding_of(user@, windows));
    holding
}

} // verus!
