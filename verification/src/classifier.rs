//! Decides, entry by entry, what a scan leaves out and what it reports.
//!
//! Times are whole seconds since the Unix epoch; a threshold is a number of
//! seconds.

use vstd::prelude::*;
use crate::text::{
    any_is_suffix, any_occurs_in, chars_of, contains_any, ends_with_any, lowercase, table_view,
    to_lowercase,
};

verus! {

/// The seconds of one day.
pub const SECONDS_PER_DAY: u64 = 86_400;

/// A name that begins with `.` is hidden.
pub open spec fn is_hidden_name(name: Seq<char>) -> bool {
    name.len() > 0 && name[0] == '.'
}

/// Endings of binaries and libraries.
pub open spec fn binary_extensions() -> Seq<Seq<char>> {
    seq![
        ".dll"@,
        ".so"@,
        ".dylib"@,
        ".bin"@,
        ".o"@,
        ".a"@,
        ".lib"@,
        ".sys"@,
        ".drv"@,
        ".class"@,
        ".pyc"@,
        ".pyo"@,
    ]
}

/// Marks of cache, temporary, lock and database files.
pub open spec fn system_patterns() -> Seq<Seq<char>> {
    seq![
        ".cache"@,
        ".tmp"@,
        ".temp"@,
        ".log"@,
        ".bak"@,
        ".swp"@,
        ".swo"@,
        ".lock"@,
        ".pid"@,
        ".dat"@,
        ".db"@,
        ".sqlite"@,
        ".idx"@,
    ]
}

/// Names of build and dependency directories.
pub open spec fn build_patterns() -> Seq<Seq<char>> {
    seq!["node_modules"@, "target"@, "build"@, "dist"@, ".git"@, ".svn"@]
}

/// The smart filter, on a name that is already in lower case: the name ends
/// like a binary, or holds a mark of a system file or the name of a build
/// directory anywhere in it.
pub open spec fn matches_smart_filter(lower_name: Seq<char>) -> bool {
    ||| any_is_suffix(binary_extensions(), lower_name)
    ||| any_occurs_in(system_patterns(), lower_name)
    ||| any_occurs_in(build_patterns(), lower_name)
}

/// Whether a file of this name is left out of the results: always where the
/// name is hidden, and with the smart filter where its lower-case form
/// matches the filter.
pub open spec fn is_excluded_name(name: Seq<char>, smart_filter: bool) -> bool {
    is_hidden_name(name) || (smart_filter && matches_smart_filter(lowercase(name)))
}

/// A file is stale when its last access lies strictly before `now` less the
/// threshold.
pub open spec fn is_stale_at(last_access: int, now: int, threshold: int) -> bool {
    last_access < now - threshold
}

/// The whole days from `last_access` to `now`; none where the access lies in
/// the future.
pub open spec fn whole_days(last_access: int, now: int) -> int {
    if last_access <= now {
        (now - last_access) / (SECONDS_PER_DAY as int)
    } else {
        0
    }
}

fn binary_extension_table() -> (table: Vec<Vec<char>>)
    ensures
        table_view(table@) == binary_extensions(),
{
    let mut table: Vec<Vec<char>> = Vec::new();
    table.push(chars_of(".dll"));
    table.push(chars_of(".so"));
    table.push(chars_of(".dylib"));
    table.push(chars_of(".bin"));
    table.push(chars_of(".o"));
    table.push(chars_of(".a"));
    table.push(chars_of(".lib"));
    table.push(chars_of(".sys"));
    table.push(chars_of(".drv"));
    table.push(chars_of(".class"));
    table.push(chars_of(".pyc"));
    table.push(chars_of(".pyo"));
    assert(table_view(table@) =~= binary_extensions());
    table
}

fn system_pattern_table() -> (table: Vec<Vec<char>>)
    ensures
        table_view(table@) == system_patterns(),
{
    let mut table: Vec<Vec<char>> = Vec::new();
    table.push(chars_of(".cache"));
    table.push(chars_of(".tmp"));
    table.push(chars_of(".temp"));
    table.push(chars_of(".log"));
    table.push(chars_of(".bak"));
    table.push(chars_of(".swp"));
    table.push(chars_of(".swo"));
    table.push(chars_of(".lock"));
    table.push(chars_of(".pid"));
    table.push(chars_of(".dat"));
    table.push(chars_of(".db"));
    table.push(chars_of(".sqlite"));
    table.push(chars_of(".idx"));
    assert(table_view(table@) =~= system_patterns());
    table
}

fn build_pattern_table() -> (table: Vec<Vec<char>>)
    ensures
        table_view(table@) == build_patterns(),
{
    let mut table: Vec<Vec<char>> = Vec::new();
    table.push(chars_of("node_modules"));
    table.push(chars_of("target"));
    table.push(chars_of("build"));
    table.push(chars_of("dist"));
    table.push(chars_of(".git"));
    table.push(chars_of(".svn"));
    assert(table_view(table@) =~= build_patterns());
    table
}

/// Whether the name is hidden: whether it begins with `.`.
pub fn is_hidden(file_name: &str) -> (hidden: bool)
    ensures
        hidden == is_hidden_name(file_name@),
{
    !file_name.is_empty() && file_name.get_char(0) == '.'
}

/// Applies the smart filter to a name that is already in lower case.
pub fn matches_filter(lower_name: &[char]) -> (matched: bool)
    ensures
        matched == matches_smart_filter(lower_name@),
{
    if ends_with_any(lower_name, &binary_extension_table()) {
        return true;
    }
    if contains_any(lower_name, &system_pattern_table()) {
        return true;
    }
    contains_any(lower_name, &build_pattern_table())
}

/// Whether a file named `file_name` is left out of the results.
pub fn is_excluded(file_name: &str, smart_filter: bool) -> (excluded: bool)
    ensures
        excluded == is_excluded_name(file_name@, smart_filter),
{
    if is_hidden(file_name) {
        return true;
    }
    if !smart_filter {
        return false;
    }
    let lower = to_lowercase(file_name);
    let lower_chars = chars_of(lower.as_str());
    matches_filter(lower_chars.as_slice())
}

/// Whether a file last accessed at `last_access` is stale at `now` under the
/// threshold `threshold`, all three in seconds. An access exactly at `now`
/// less the threshold is not stale.
pub fn is_stale(last_access: u64, now: u64, threshold: u64) -> (stale: bool)
    ensures
        stale == is_stale_at(last_access as int, now as int, threshold as int),
{
    now >= threshold && last_access < now - threshold
}

/// The whole days since the last access; zero where the access is reported
/// to lie in the future.
pub fn days_since_access(last_access: u64, now: u64) -> (days: u64)
    ensures
        days == whole_days(last_access as int, now as int),
{
    if last_access <= now {
        (now - last_access) / SECONDS_PER_DAY
    } else {
        0
    }
}

/// A stale file has gone without access for at least as many whole days as
/// the threshold holds.
pub proof fn lemma_stale_days(last_access: int, now: int, days: int)
    requires
        0 <= days,
        is_stale_at(last_access, now, days * (SECONDS_PER_DAY as int)),
    ensures
        whole_days(last_access, now) >= days,
{
    let elapsed = now - last_access;
    assert(elapsed >= days * 86_400);
    assert(elapsed / 86_400 >= days) by (nonlinear_arith)
        requires
            elapsed >= days * 86_400,
    ;
}

} // verus!
