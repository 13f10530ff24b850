//! Executables and the support files that belong to them.
//!
//! A support file of an executable lies in the same directory, has a name
//! that begins with the stem of the executable, and ends like a library, a
//! data file or a configuration file. Names are compared in lower case.
//!
//! Executables live where paths are written with `\`. The path of an
//! executable is therefore read with either separator, `/` or `\`.

use vstd::prelude::*;
use crate::path::{stem, stem_of};
use crate::scanner::{entries_view, DirEntry, EntryView};
use crate::text::{
    any_is_suffix, chars_of, ends_with, ends_with_any, is_prefix, is_suffix, lowercase,
    same_chars, starts_with, string_from_chars, strings_view, table_view, to_lowercase,
};

verus! {

/// The endings of the files that go with an executable.
pub open spec fn support_extensions() -> Seq<Seq<char>> {
    seq![".dll"@, ".dat"@, ".ini"@, ".cfg"@, ".config"@]
}

/// A path in lower case ends like an executable.
pub open spec fn ends_like_executable(lower_path: Seq<char>) -> bool {
    is_suffix(".exe"@, lower_path)
}

/// The path names an executable: its lower-case form ends in `.exe`.
pub open spec fn is_executable_path(path: Seq<char>) -> bool {
    ends_like_executable(lowercase(path))
}

/// Either of the characters that separate the parts of the path of an
/// executable: `/`, and `\` as Windows writes it.
pub open spec fn is_separator(c: char) -> bool {
    c == '/' || c == '\\'
}

/// A separator stands at `at`, and none behind it.
pub open spec fn is_last_separator(path: Seq<char>, at: int) -> bool {
    &&& 0 <= at < path.len()
    &&& is_separator(path[at])
    &&& forall|j: int| at < j < path.len() ==> !is_separator(path[j])
}

/// The position of the last separator of `path`, where it has one.
pub open spec fn last_separator(path: Seq<char>) -> Option<int> {
    if exists|at: int| is_last_separator(path, at) {
        Some(choose|at: int| is_last_separator(path, at))
    } else {
        None
    }
}

/// The file name in `path`: what stands behind the last separator, or the
/// whole path where it holds none.
pub open spec fn file_name_of(path: Seq<char>) -> Seq<char> {
    match last_separator(path) {
        Some(at) => path.skip(at + 1),
        None => path,
    }
}

/// The stem of the executable at `path`: its file name without the
/// extension. Nothing where the path names no executable.
pub open spec fn executable_stem(path: Seq<char>) -> Option<Seq<char>> {
    if is_executable_path(path) {
        Some(stem(file_name_of(path)))
    } else {
        None
    }
}

/// A name in lower case is that of a support file of the executable whose
/// stem, in lower case, is `lower_stem`.
pub open spec fn supports(lower_name: Seq<char>, lower_stem: Seq<char>) -> bool {
    is_prefix(lower_stem, lower_name) && any_is_suffix(support_extensions(), lower_name)
}

/// The entry is a support file of the executable at `exe_path` with the stem
/// `exe_stem`: it is not the executable itself, and its name supports it.
pub open spec fn is_associated(entry: EntryView, exe_path: Seq<char>, exe_stem: Seq<char>) -> bool {
    entry.path != exe_path && supports(lowercase(entry.name), lowercase(exe_stem))
}

/// The entries of `listing` that are support files of the executable, in the
/// order of the listing.
pub open spec fn associated_entries(
    listing: Seq<EntryView>,
    exe_path: Seq<char>,
    exe_stem: Seq<char>,
) -> Seq<EntryView>
    decreases listing.len(),
{
    if listing.len() == 0 {
        Seq::empty()
    } else {
        let before = associated_entries(listing.drop_last(), exe_path, exe_stem);
        if is_associated(listing.last(), exe_path, exe_stem) {
            before.push(listing.last())
        } else {
            before
        }
    }
}

/// The support files of the executable at `exe_path` among the entries of
/// its directory; none where the path names no executable.
pub open spec fn associated_files(listing: Seq<EntryView>, exe_path: Seq<char>) -> Seq<EntryView> {
    match executable_stem(exe_path) {
        Some(exe_stem) => associated_entries(listing, exe_path, exe_stem),
        None => Seq::empty(),
    }
}

/// The paths of entries.
pub open spec fn paths_of(entries: Seq<EntryView>) -> Seq<Seq<char>> {
    Seq::new(entries.len(), |k: int| entries[k].path)
}

/// The directory in which the file at `path` lies, as the path writes it:
/// what stands before the last separator. The separator itself stays where
/// it opens the path or follows the colon of a drive, so that the root is
/// written `/` and the root of a drive `C:\`. Nothing where the path holds no
/// separator.
pub open spec fn containing_directory(path: Seq<char>) -> Option<Seq<char>> {
    match last_separator(path) {
        Some(at) => if at == 0 || path[at - 1] == ':' {
            Some(path.take(at + 1))
        } else {
            Some(path.take(at))
        },
        None => None,
    }
}

fn support_extension_table() -> (table: Vec<Vec<char>>)
    ensures
        table_view(table@) == support_extensions(),
{
    let mut table: Vec<Vec<char>> = Vec::new();
    table.push(chars_of(".dll"));
    table.push(chars_of(".dat"));
    table.push(chars_of(".ini"));
    table.push(chars_of(".cfg"));
    table.push(chars_of(".config"));
    assert(table_view(table@) =~= support_extensions());
    table
}

/// Whether a path in lower case ends in `.exe`.
pub fn has_executable_ending(lower_path: &[char]) -> (r: bool)
    ensures
        r == ends_like_executable(lower_path@),
{
    let ending = chars_of(".exe");
    ends_with(lower_path, ending.as_slice())
}

/// Whether the path names an executable.
pub fn is_executable(path: &str) -> (r: bool)
    ensures
        r == is_executable_path(path@),
{
    let lower = to_lowercase(path);
    let lower_chars = chars_of(lower.as_str());
    has_executable_ending(lower_chars.as_slice())
}

/// Finds the last separator of `path`.
pub fn find_last_separator(path: &[char]) -> (at: Option<usize>)
    ensures
        match at {
            Some(i) => i < path@.len() && last_separator(path@) == Some(i as int),
            None => last_separator(path@) is None,
        },
{
    let mut i: usize = path.len();
    while i > 0
        invariant
            i <= path@.len(),
            forall|j: int| i <= j < path@.len() ==> !is_separator(path@[j]),
        decreases i,
    {
        i -= 1;
        if path[i] == '/' || path[i] == '\\' {
            proof {
                assert(is_last_separator(path@, i as int));
                let at = choose|at: int| is_last_separator(path@, at);
                assert(at == i);
            }
            return Some(i);
        }
    }
    None
}

/// The characters of `chars` from `from` to `to`.
fn slice_of(chars: &[char], from: usize, to: usize) -> (out: Vec<char>)
    requires
        from <= to <= chars@.len(),
    ensures
        out@ == chars@.subrange(from as int, to as int),
{
    let mut out: Vec<char> = Vec::new();
    let mut k: usize = from;
    assert(chars@.subrange(from as int, from as int) =~= out@);
    while k < to
        invariant
            from <= k <= to <= chars@.len(),
            out@ == chars@.subrange(from as int, k as int),
        decreases to - k,
    {
        out.push(chars[k]);
        assert(chars@.subrange(from as int, k + 1) =~= chars@.subrange(from as int, k as int).push(
            chars@[k as int],
        ));
        k += 1;
    }
    out
}

/// The stem of the executable at `path`; nothing where the path names no
/// executable.
pub fn get_exe_base_name(path: &str) -> (base: Option<String>)
    ensures
        match base {
            Some(s) => executable_stem(path@) == Some(s@),
            None => executable_stem(path@) is None,
        },
{
    if !is_executable(path) {
        return None;
    }
    let chars = chars_of(path);
    let length: usize = chars.len();
    let name = match find_last_separator(chars.as_slice()) {
        Some(at) => {
            assert(chars@.subrange(at + 1, chars@.len() as int) =~= chars@.skip(at + 1));
            slice_of(chars.as_slice(), at + 1, length)
        },
        None => chars,
    };
    let name_stem = stem_of(name.as_slice());
    Some(string_from_chars(name_stem.as_slice()))
}

/// Whether a name in lower case is that of a support file for the stem
/// `lower_stem`, itself in lower case.
pub fn is_support_name(lower_name: &[char], lower_stem: &[char]) -> (r: bool)
    ensures
        r == supports(lower_name@, lower_stem@),
{
    starts_with(lower_name, lower_stem) && ends_with_any(lower_name, &support_extension_table())
}

/// Whether the entry is a support file of the executable at `exe_path`,
/// whose stem in lower case is `lower_stem`.
pub fn is_associated_entry(entry: &DirEntry, exe_path: &[char], lower_stem: &[char]) -> (r: bool)
    ensures
        r == (entry.path@ != exe_path@ && supports(lowercase(entry.name@), lower_stem@)),
{
    let path_chars = chars_of(entry.path.as_str());
    if same_chars(path_chars.as_slice(), exe_path) {
        return false;
    }
    let lower_name = to_lowercase(entry.name.as_str());
    let lower_name_chars = chars_of(lower_name.as_str());
    is_support_name(lower_name_chars.as_slice(), lower_stem)
}

/// The support files among the first entries of a listing are the first of
/// the support files of the whole listing.
pub proof fn lemma_associated_prefix(
    listing: Seq<EntryView>,
    upto: int,
    exe_path: Seq<char>,
    exe_stem: Seq<char>,
)
    requires
        0 <= upto <= listing.len(),
    ensures
        associated_entries(listing.take(upto), exe_path, exe_stem).len() <= associated_entries(
            listing,
            exe_path,
            exe_stem,
        ).len(),
        associated_entries(listing.take(upto), exe_path, exe_stem) == associated_entries(
            listing,
            exe_path,
            exe_stem,
        ).take(associated_entries(listing.take(upto), exe_path, exe_stem).len() as int),
    decreases listing.len() - upto,
{
    let whole = associated_entries(listing, exe_path, exe_stem);
    if upto == listing.len() {
        assert(listing.take(upto) =~= listing);
        assert(whole.take(whole.len() as int) =~= whole);
    } else {
        lemma_associated_prefix(listing, upto + 1, exe_path, exe_stem);
        let longer = associated_entries(listing.take(upto + 1), exe_path, exe_stem);
        let shorter = associated_entries(listing.take(upto), exe_path, exe_stem);
        assert(listing.take(upto + 1).drop_last() =~= listing.take(upto));
        assert(shorter =~= longer.take(shorter.len() as int));
        assert(longer.take(shorter.len() as int) =~= whole.take(shorter.len() as int));
    }
}

/// Among the entries of the directory of the executable at `exe_path`, finds
/// its support files and returns their paths in the order of the listing.
pub fn find_associated_files(exe_path: &str, listing: &Vec<DirEntry>) -> (found: Vec<String>)
    ensures
        strings_view(found@) == paths_of(associated_files(entries_view(listing@), exe_path@)),
{
    let mut found: Vec<String> = Vec::new();
    let exe_stem = match get_exe_base_name(exe_path) {
        Some(s) => s,
        None => {
            assert(strings_view(found@) =~= paths_of(Seq::<EntryView>::empty()));
            return found;
        },
    };
    let lower_stem = to_lowercase(exe_stem.as_str());
    let lower_stem_chars = chars_of(lower_stem.as_str());
    let exe_chars = chars_of(exe_path);
    let ghost all = entries_view(listing@);
    let mut k: usize = 0;
    assert(all.take(0) =~= Seq::<EntryView>::empty());
    assert(strings_view(found@) =~= paths_of(Seq::<EntryView>::empty()));
    while k < listing.len()
        invariant
            all == entries_view(listing@),
            k <= listing@.len(),
            exe_chars@ == exe_path@,
            lower_stem_chars@ == lowercase(exe_stem@),
            strings_view(found@) == paths_of(associated_entries(all.take(k as int), exe_path@, exe_stem@)),
        decreases listing@.len() - k,
    {
        let entry = &listing[k];
        proof {
            let upto = all.take(k + 1);
            assert(upto.drop_last() =~= all.take(k as int));
            assert(upto.last() == entry@);
        }
        if is_associated_entry(entry, exe_chars.as_slice(), lower_stem_chars.as_slice()) {
            let ghost before = strings_view(found@);
            let ghost entries_before = associated_entries(all.take(k as int), exe_path@, exe_stem@);
            found.push(entry.path.clone());
            assert(strings_view(found@) =~= before.push(entry.path@));
            assert(paths_of(entries_before.push(entry@)) =~= paths_of(entries_before).push(
                entry.path@,
            ));
        }
        k += 1;
    }
    assert(all.take(k as int) =~= all);
    found
}

/// The directory in which the file at `path` lies, as the path writes it.
pub fn directory_containing(path: &str) -> (dir: Option<String>)
    ensures
        match dir {
            Some(d) => containing_directory(path@) == Some(d@),
            None => containing_directory(path@) is None,
        },
{
    let chars = chars_of(path);
    let length: usize = chars.len();
    match find_last_separator(chars.as_slice()) {
        Some(at) => {
            assert(at < length);
            let end: usize = if at == 0 || chars[at - 1] == ':' {
                at + 1
            } else {
                at
            };
            let out = slice_of(chars.as_slice(), 0, end);
            assert(chars@.subrange(0, end as int) =~= chars@.take(end as int));
            Some(string_from_chars(out.as_slice()))
        },
        None => None,
    }
}

} // verus!
