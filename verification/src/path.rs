//! Paths as sequences of segments.
//!
//! A path is read as the segments between its `/` separators; empty pieces
//! (a leading, trailing or doubled separator) are dropped. A directory is the
//! sequence of the segments that lead to it, the root being the empty
//! sequence, so that "lies inside" is "is a leading part of".

use vstd::prelude::*;
use crate::text::{chars_of, copy_chars, string_from_chars, table_view};

verus! {

/// The character that separates the segments of a path.
pub const SEPARATOR: char = '/';

/// The state of a left-to-right split of `s`: the segments that are closed,
/// and the characters of the segment that is still open.
pub open spec fn split_state(s: Seq<char>) -> (Seq<Seq<char>>, Seq<char>)
    decreases s.len(),
{
    if s.len() == 0 {
        (Seq::empty(), Seq::empty())
    } else {
        let (closed, open) = split_state(s.drop_last());
        if s.last() != SEPARATOR {
            (closed, open.push(s.last()))
        } else if open.len() > 0 {
            (closed.push(open), Seq::empty())
        } else {
            (closed, open)
        }
    }
}

/// The segments of the path `s`.
pub open spec fn segments(s: Seq<char>) -> Seq<Seq<char>> {
    let (closed, open) = split_state(s);
    if open.len() > 0 {
        closed.push(open)
    } else {
        closed
    }
}

/// A segment is not empty and holds no separator.
pub open spec fn is_segment(seg: Seq<char>) -> bool {
    seg.len() > 0 && forall|i: int| 0 <= i < seg.len() ==> seg[i] != SEPARATOR
}

/// Every entry of `segs` is a segment.
pub open spec fn all_segments(segs: Seq<Seq<char>>) -> bool {
    forall|k: int| 0 <= k < segs.len() ==> is_segment(#[trigger] segs[k])
}

/// The root directory: the one that no segment leads to.
pub open spec fn root() -> Seq<Seq<char>> {
    Seq::empty()
}

/// The directory that holds the entry `segs`: all segments but the last.
pub open spec fn parent(segs: Seq<Seq<char>>) -> Seq<Seq<char>> {
    if segs.len() > 0 {
        segs.drop_last()
    } else {
        segs
    }
}

/// The directory that holds the file at `file_path`.
pub open spec fn directory_of(file_path: Seq<char>) -> Seq<Seq<char>> {
    parent(segments(file_path))
}

/// The directory `dir` is `node` or lies somewhere below it.
pub open spec fn within(dir: Seq<Seq<char>>, node: Seq<Seq<char>>) -> bool {
    node.len() <= dir.len() && dir.take(node.len() as int) == node
}

/// The file at `file_path` lies in `node` or somewhere below it.
pub open spec fn lies_under(file_path: Seq<char>, node: Seq<Seq<char>>) -> bool {
    within(directory_of(file_path), node)
}

/// The segments, each led by a separator: `/a/b` for `[a, b]`.
pub open spec fn joined(segs: Seq<Seq<char>>) -> Seq<char>
    decreases segs.len(),
{
    if segs.len() == 0 {
        Seq::empty()
    } else {
        joined(segs.drop_last()).push(SEPARATOR) + segs.last()
    }
}

/// How a directory is written: `/` for the root, else its segments, each led
/// by a separator.
pub open spec fn display(segs: Seq<Seq<char>>) -> Seq<char> {
    if segs.len() == 0 {
        seq![SEPARATOR]
    } else {
        joined(segs)
    }
}

/// The position of the last `.` of `name` that splits a stem from an
/// extension, if there is one: a `.` that opens the name splits nothing.
pub open spec fn extension_dot(name: Seq<char>) -> Option<int> {
    if exists|i: int| 0 < i < name.len() && name[i] == '.' {
        Some(last_dot(name))
    } else {
        None
    }
}

/// The position of the last `.` of `name` behind its first character, where
/// there is one.
pub open spec fn last_dot(name: Seq<char>) -> int {
    choose|i: int|
        0 < i < name.len() && name[i] == '.' && forall|j: int|
            i < j < name.len() ==> name[j] != '.'
}

/// The name without its extension: what stands before the last `.`, or the
/// whole name where no `.` splits it.
pub open spec fn stem(name: Seq<char>) -> Seq<char> {
    match extension_dot(name) {
        Some(i) => name.take(i),
        None => name,
    }
}

/// The extension with its `.`, or nothing where no `.` splits the name.
pub open spec fn dot_extension(name: Seq<char>) -> Seq<char> {
    match extension_dot(name) {
        Some(i) => name.skip(i),
        None => Seq::empty(),
    }
}

/// The closed and the open part of a split hold only segment characters, and
/// each closed part is a segment.
pub proof fn lemma_split_state_segments(s: Seq<char>)
    ensures
        all_segments(split_state(s).0),
        forall|i: int| 0 <= i < split_state(s).1.len() ==> split_state(s).1[i] != SEPARATOR,
    decreases s.len(),
{
    if s.len() > 0 {
        lemma_split_state_segments(s.drop_last());
    }
}

/// Splitting yields segments only: none is empty, none holds a separator.
pub proof fn lemma_segments_are_segments(s: Seq<char>)
    ensures
        all_segments(segments(s)),
{
    lemma_split_state_segments(s);
}

/// Characters without a separator, put behind a path, lengthen the segment
/// that is open.
pub proof fn lemma_split_state_extends(s: Seq<char>, tail: Seq<char>)
    requires
        forall|i: int| 0 <= i < tail.len() ==> tail[i] != SEPARATOR,
    ensures
        split_state(s + tail) == (split_state(s).0, split_state(s).1 + tail),
    decreases tail.len(),
{
    if tail.len() == 0 {
        assert(s + tail =~= s);
        assert(split_state(s).1 + tail =~= split_state(s).1);
    } else {
        let shorter = tail.drop_last();
        lemma_split_state_extends(s, shorter);
        assert((s + tail).drop_last() =~= s + shorter);
        assert((s + tail).last() == tail.last());
        assert((split_state(s).1 + shorter).push(tail.last()) =~= split_state(s).1 + tail);
    }
}

/// Segments that are joined leave the last of them open and the others
/// closed when they are split again.
pub proof fn lemma_split_state_joined(segs: Seq<Seq<char>>)
    requires
        all_segments(segs),
        segs.len() > 0,
    ensures
        split_state(joined(segs)) == (segs.drop_last(), segs.last()),
    decreases segs.len(),
{
    let front = segs.drop_last();
    let before = joined(front);
    let opened = before.push(SEPARATOR);
    assert(opened.drop_last() =~= before);
    if front.len() > 0 {
        assert(all_segments(front)) by {
            assert forall|k: int| 0 <= k < front.len() implies is_segment(#[trigger] front[k]) by {
                assert(front[k] == segs[k]);
            }
        }
        lemma_split_state_joined(front);
        assert(is_segment(front.last())) by {
            assert(front.last() == segs[front.len() - 1]);
        }
        assert(front.drop_last().push(front.last()) =~= front);
        assert(split_state(opened) == (front, Seq::<char>::empty()));
    } else {
        assert(before =~= Seq::<char>::empty());
        assert(split_state(before) == (Seq::<Seq<char>>::empty(), Seq::<char>::empty()));
        assert(front =~= Seq::<Seq<char>>::empty());
        assert(split_state(opened) == (front, Seq::<char>::empty()));
    }
    assert(is_segment(segs.last())) by {
        assert(segs.last() == segs[segs.len() - 1]);
    }
    lemma_split_state_extends(opened, segs.last());
    assert(Seq::<char>::empty() + segs.last() =~= segs.last());
}

/// A directory that is written and read again is the same directory.
pub proof fn lemma_display_round_trip(segs: Seq<Seq<char>>)
    requires
        all_segments(segs),
    ensures
        segments(display(segs)) == segs,
{
    if segs.len() == 0 {
        let written = seq![SEPARATOR];
        assert(written.drop_last() =~= Seq::<char>::empty());
        assert(split_state(written.drop_last()) == (
            Seq::<Seq<char>>::empty(),
            Seq::<char>::empty(),
        ));
        assert(written.last() == SEPARATOR);
        assert(segments(written) =~= segs);
    } else {
        lemma_split_state_joined(segs);
        assert(is_segment(segs.last())) by {
            assert(segs.last() == segs[segs.len() - 1]);
        }
        assert(segs.drop_last().push(segs.last()) =~= segs);
    }
}

/// Lying within a directory is transitive.
pub proof fn lemma_within_transitive(a: Seq<Seq<char>>, b: Seq<Seq<char>>, c: Seq<Seq<char>>)
    requires
        within(a, b),
        within(b, c),
    ensures
        within(a, c),
{
    assert(a.take(c.len() as int) =~= a.take(b.len() as int).take(c.len() as int));
}

/// Splits the path `path` into its segments.
pub fn split_path(path: &str) -> (segs: Vec<Vec<char>>)
    ensures
        table_view(segs@) == segments(path@),
        all_segments(table_view(segs@)),
{
    let chars = chars_of(path);
    let mut closed: Vec<Vec<char>> = Vec::new();
    let mut open: Vec<char> = Vec::new();
    let mut i: usize = 0;
    while i < chars.len()
        invariant
            i <= chars@.len(),
            chars@ == path@,
            (table_view(closed@), open@) == split_state(chars@.take(i as int)),
        decreases chars@.len() - i,
    {
        let c = chars[i];
        proof {
            let after = chars@.take(i + 1);
            assert(after.drop_last() =~= chars@.take(i as int));
            assert(after.last() == c);
        }
        if c != SEPARATOR {
            open.push(c);
        } else if open.len() > 0 {
            let ghost old_closed = table_view(closed@);
            let ghost last = open@;
            closed.push(open);
            open = Vec::new();
            assert(table_view(closed@) =~= old_closed.push(last));
        }
        i += 1;
    }
    assert(chars@.take(i as int) =~= path@);
    if open.len() > 0 {
        let ghost old_closed = table_view(closed@);
        let ghost last = open@;
        closed.push(open);
        assert(table_view(closed@) =~= old_closed.push(last));
    }
    proof {
        lemma_segments_are_segments(path@);
    }
    closed
}

/// Writes the directory `segs` as a string: `/` for the root, else each
/// segment led by a separator.
pub fn display_path(segs: &Vec<Vec<char>>) -> (s: String)
    ensures
        s@ == display(table_view(segs@)),
{
    let chars = display_chars(segs);
    string_from_chars(chars.as_slice())
}

/// The characters of the directory `segs` as it is written.
pub fn display_chars(segs: &Vec<Vec<char>>) -> (out: Vec<char>)
    ensures
        out@ == display(table_view(segs@)),
{
    let mut out: Vec<char> = Vec::new();
    if segs.len() == 0 {
        out.push(SEPARATOR);
        assert(out@ =~= seq![SEPARATOR]);
        return out;
    }
    let mut k: usize = 0;
    while k < segs.len()
        invariant
            k <= segs@.len(),
            out@ == joined(table_view(segs@).take(k as int)),
        decreases segs@.len() - k,
    {
        let ghost before = out@;
        out.push(SEPARATOR);
        let seg = &segs[k];
        let mut i: usize = 0;
        while i < seg.len()
            invariant
                i <= seg@.len(),
                out@ == before.push(SEPARATOR) + seg@.take(i as int),
            decreases seg@.len() - i,
        {
            out.push(seg[i]);
            assert(seg@.take(i + 1) =~= seg@.take(i as int).push(seg@[i as int]));
            i += 1;
        }
        proof {
            let upto = table_view(segs@).take(k + 1);
            assert(upto.drop_last() =~= table_view(segs@).take(k as int));
            assert(upto.last() == seg@);
            assert(seg@.take(seg@.len() as int) =~= seg@);
        }
        k += 1;
    }
    assert(table_view(segs@).take(segs@.len() as int) =~= table_view(segs@));
    out
}

/// Where the extension of `name` begins: the position of its last `.`, unless
/// that `.` opens the name or there is none.
pub fn find_extension_dot(name: &[char]) -> (at: Option<usize>)
    ensures
        match at {
            Some(i) => 0 < i < name@.len() && extension_dot(name@) == Some(i as int),
            None => extension_dot(name@) is None,
        },
{
    let mut i: usize = name.len();
    while i > 1
        invariant
            i <= name@.len(),
            forall|j: int| i <= j < name@.len() ==> name@[j] != '.',
        decreases i,
    {
        i -= 1;
        if name[i] == '.' {
            proof {
                let d = last_dot(name@);
                assert(0 < i < name@.len() && name@[i as int] == '.');
                assert(d == i);
            }
            return Some(i);
        }
    }
    None
}

/// The name without its extension.
pub fn stem_of(name: &[char]) -> (out: Vec<char>)
    ensures
        out@ == stem(name@),
{
    let end: usize = match find_extension_dot(name) {
        Some(i) => i,
        None => name.len(),
    };
    let mut out: Vec<char> = Vec::new();
    let mut i: usize = 0;
    while i < end
        invariant
            i <= end <= name@.len(),
            out@ == name@.take(i as int),
        decreases end - i,
    {
        out.push(name[i]);
        assert(name@.take(i + 1) =~= name@.take(i as int).push(name@[i as int]));
        i += 1;
    }
    assert(name@.take(name@.len() as int) =~= name@);
    out
}

/// The extension of `name` with its `.`, or nothing.
pub fn dot_extension_of(name: &[char]) -> (out: Vec<char>)
    ensures
        out@ == dot_extension(name@),
{
    let start: usize = match find_extension_dot(name) {
        Some(i) => i,
        None => name.len(),
    };
    let mut out: Vec<char> = Vec::new();
    let mut i: usize = start;
    assert(name@.subrange(start as int, start as int) =~= out@);
    while i < name.len()
        invariant
            start <= i <= name@.len(),
            out@ == name@.subrange(start as int, i as int),
        decreases name@.len() - i,
    {
        out.push(name[i]);
        assert(name@.subrange(start as int, i + 1) =~= name@.subrange(start as int, i as int).push(
            name@[i as int],
        ));
        i += 1;
    }
    assert(name@.subrange(start as int, name@.len() as int) =~= name@.skip(start as int));
    out
}

/// A copy of the first `upto` segments of `segs`.
pub fn copy_segments(segs: &Vec<Vec<char>>, upto: usize) -> (out: Vec<Vec<char>>)
    requires
        upto <= segs@.len(),
    ensures
        table_view(out@) == table_view(segs@).take(upto as int),
{
    let mut out: Vec<Vec<char>> = Vec::new();
    let mut k: usize = 0;
    while k < upto
        invariant
            k <= upto <= segs@.len(),
            table_view(out@) == table_view(segs@).take(k as int),
        decreases upto - k,
    {
        let ghost before = table_view(out@);
        out.push(copy_chars(segs[k].as_slice()));
        assert(table_view(out@) =~= before.push(segs@[k as int]@));
        assert(table_view(segs@).take(k + 1) =~= table_view(segs@).take(k as int).push(
            segs@[k as int]@,
        ));
        k += 1;
    }
    out
}

} // verus!
