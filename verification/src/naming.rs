//! Names in the holding directory.
//!
//! A file that is moved keeps its name. Where a file of that name is already
//! there, the time of the move is appended to the stem: `report.txt` becomes
//! `report_1700000000.txt`.

use vstd::prelude::*;
use crate::path::{
    dot_extension, dot_extension_of, extension_dot, last_dot, stem, stem_of, SEPARATOR,
};
use crate::text::{chars_of, is_prefix, is_suffix, string_from_chars};

verus! {

/// What stands between a stem and the time appended to it.
pub const STAMP_MARK: char = '_';

/// The character of a decimal digit.
pub open spec fn digit(d: int) -> char {
    if d == 0 {
        '0'
    } else if d == 1 {
        '1'
    } else if d == 2 {
        '2'
    } else if d == 3 {
        '3'
    } else if d == 4 {
        '4'
    } else if d == 5 {
        '5'
    } else if d == 6 {
        '6'
    } else if d == 7 {
        '7'
    } else if d == 8 {
        '8'
    } else {
        '9'
    }
}

/// The number `n` in decimal digits, without leading zeros.
pub open spec fn decimal(n: nat) -> Seq<char>
    decreases n,
{
    if n < 10 {
        seq![digit(n as int)]
    } else {
        decimal(n / 10).push(digit((n % 10) as int))
    }
}

/// The name `name` with the time `stamp` appended to its stem.
pub open spec fn stamped(name: Seq<char>, stamp: u64) -> Seq<char> {
    stem(name).push(STAMP_MARK) + decimal(stamp as nat) + dot_extension(name)
}

/// The path of the file named `name` in the directory `holding`.
pub open spec fn destination(holding: Seq<char>, name: Seq<char>) -> Seq<char> {
    holding.push(SEPARATOR) + name
}

/// The character of the decimal digit `d`.
pub fn digit_char(d: u64) -> (c: char)
    requires
        d < 10,
    ensures
        c == digit(d as int),
{
    if d == 0 {
        '0'
    } else if d == 1 {
        '1'
    } else if d == 2 {
        '2'
    } else if d == 3 {
        '3'
    } else if d == 4 {
        '4'
    } else if d == 5 {
        '5'
    } else if d == 6 {
        '6'
    } else if d == 7 {
        '7'
    } else if d == 8 {
        '8'
    } else {
        '9'
    }
}

/// Appends the decimal digits of `n` to `out`.
pub fn push_decimal(out: &mut Vec<char>, n: u64)
    ensures
        final(out)@ == old(out)@ + decimal(n as nat),
    decreases n,
{
    if n < 10 {
        out.push(digit_char(n));
        assert(out@ =~= old(out)@ + decimal(n as nat));
    } else {
        push_decimal(out, n / 10);
        out.push(digit_char(n % 10));
        assert(out@ =~= old(out)@ + decimal(n as nat));
    }
}

fn push_all(out: &mut Vec<char>, chars: &[char])
    ensures
        final(out)@ == old(out)@ + chars@,
{
    let mut i: usize = 0;
    assert(out@ =~= old(out)@ + chars@.take(0));
    while i < chars.len()
        invariant
            i <= chars@.len(),
            out@ == old(out)@ + chars@.take(i as int),
        decreases chars@.len() - i,
    {
        out.push(chars[i]);
        assert(chars@.take(i + 1) =~= chars@.take(i as int).push(chars@[i as int]));
        assert(out@ =~= old(out)@ + chars@.take(i + 1));
        i += 1;
    }
    assert(chars@.take(chars@.len() as int) =~= chars@);
}

/// The name `name` with the time `stamp` appended to its stem; the extension
/// stays.
pub fn stamped_name(name: &str, stamp: u64) -> (s: String)
    ensures
        s@ == stamped(name@, stamp),
{
    let chars = chars_of(name);
    let mut out = stem_of(chars.as_slice());
    out.push(STAMP_MARK);
    push_decimal(&mut out, stamp);
    let extension = dot_extension_of(chars.as_slice());
    push_all(&mut out, extension.as_slice());
    string_from_chars(out.as_slice())
}

/// The path of the file named `name` in the directory `holding`.
pub fn destination_path(holding: &str, name: &str) -> (s: String)
    ensures
        s@ == destination(holding@, name@),
{
    let mut out = chars_of(holding);
    out.push(SEPARATOR);
    let tail = chars_of(name);
    push_all(&mut out, tail.as_slice());
    string_from_chars(out.as_slice())
}

/// A stamped name keeps the stem in front and the extension behind.
pub proof fn lemma_stamped_keeps_ends(name: Seq<char>, stamp: u64)
    ensures
        is_prefix(stem(name), stamped(name, stamp)),
        is_suffix(dot_extension(name), stamped(name, stamp)),
        stamped(name, stamp).len() > name.len(),
{
    let s = stamped(name, stamp);
    let front = stem(name).push(STAMP_MARK) + decimal(stamp as nat);
    lemma_decimal_not_empty(stamp as nat);
    assert(s.subrange(0, stem(name).len() as int) =~= stem(name));
    assert(s.subrange(s.len() - dot_extension(name).len(), s.len() as int) =~= dot_extension(name));
    assert(stem(name).len() + dot_extension(name).len() == name.len()) by {
        match extension_dot(name) {
            Some(i) => {
                assert(0 < i < name.len()) by {
                    let w = choose|i: int| 0 < i < name.len() && name[i] == '.';
                    assert(0 < w < name.len() && name[w] == '.');
                    lemma_last_dot_exists(name, w);
                }
            },
            None => {},
        }
    }
}

/// Where a `.` stands behind the first character of a name, a last one does.
pub proof fn lemma_last_dot_exists(name: Seq<char>, at: int)
    requires
        0 < at < name.len(),
        name[at] == '.',
    ensures
        0 < last_dot(name) < name.len(),
    decreases name.len() - at,
{
    if forall|j: int| at < j < name.len() ==> name[j] != '.' {
        assert(0 < at < name.len() && name[at] == '.' && forall|j: int|
            at < j < name.len() ==> name[j] != '.');
    } else {
        let next = choose|j: int| at < j < name.len() && name[j] == '.';
        lemma_last_dot_exists(name, next);
    }
}

/// A number has at least one decimal digit.
pub proof fn lemma_decimal_not_empty(n: nat)
    ensures
        decimal(n).len() > 0,
    decreases n,
{
    if n >= 10 {
        lemma_decimal_not_empty(n / 10);
    }
}

} // verus!
