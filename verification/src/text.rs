//! Character sequences: the plain form in which names and paths are examined.
//!
//! Every predicate here is stated over `Seq<char>`, the view of `str`, `String`
//! and `Vec<char>` alike, and each executable function is proved against it.

use vstd::prelude::*;

verus! {

/// `p` is a leading part of `s`.
pub open spec fn is_prefix(p: Seq<char>, s: Seq<char>) -> bool {
    p.len() <= s.len() && s.subrange(0, p.len() as int) == p
}

/// `p` is a trailing part of `s`.
pub open spec fn is_suffix(p: Seq<char>, s: Seq<char>) -> bool {
    p.len() <= s.len() && s.subrange(s.len() - p.len(), s.len() as int) == p
}

/// `p` stands in `s` at position `i`.
pub open spec fn occurs_at(p: Seq<char>, s: Seq<char>, i: int) -> bool {
    0 <= i && i + p.len() <= s.len() && s.subrange(i, i + p.len()) == p
}

/// `p` stands somewhere in `s`.
pub open spec fn occurs_in(p: Seq<char>, s: Seq<char>) -> bool {
    exists|i: int| occurs_at(p, s, i)
}

/// Some pattern of `patterns` is a trailing part of `s`.
pub open spec fn any_is_suffix(patterns: Seq<Seq<char>>, s: Seq<char>) -> bool {
    exists|k: int| 0 <= k < patterns.len() && is_suffix(#[trigger] patterns[k], s)
}

/// Some pattern of `patterns` stands somewhere in `s`.
pub open spec fn any_occurs_in(patterns: Seq<Seq<char>>, s: Seq<char>) -> bool {
    exists|k: int| 0 <= k < patterns.len() && occurs_in(#[trigger] patterns[k], s)
}

/// What a table of character vectors holds, each entry by its view.
pub open spec fn table_view(table: Seq<Vec<char>>) -> Seq<Seq<char>> {
    Seq::new(table.len(), |k: int| table[k]@)
}

/// What a vector of strings holds, each by its view.
pub open spec fn strings_view(strings: Seq<String>) -> Seq<Seq<char>> {
    Seq::new(strings.len(), |k: int| strings[k]@)
}

/// `a` and `b` agree before position `k`, and there `a` ends or holds the
/// smaller character.
pub open spec fn precedes_at(a: Seq<char>, b: Seq<char>, k: int) -> bool {
    &&& 0 <= k <= a.len()
    &&& k < b.len()
    &&& forall|i: int| 0 <= i < k ==> a[i] == b[i]
    &&& k < a.len() ==> a[k] < b[k]
}

/// `a` comes strictly before `b` in lexicographic order of code points: the
/// order in which strings sort.
pub open spec fn precedes(a: Seq<char>, b: Seq<char>) -> bool {
    exists|k: int| precedes_at(a, b, k)
}

/// How two character sequences stand to each other in lexicographic order.
#[derive(Clone, Copy, Debug, PartialEq, Eq, Structural)]
pub enum Rank {
    Before,
    Same,
    After,
}

/// The lexicographic order is transitive.
pub proof fn lemma_precedes_transitive(a: Seq<char>, b: Seq<char>, c: Seq<char>)
    requires
        precedes(a, b),
        precedes(b, c),
    ensures
        precedes(a, c),
{
    let k1 = choose|k: int| precedes_at(a, b, k);
    let k2 = choose|k: int| precedes_at(b, c, k);
    let k = if k1 <= k2 { k1 } else { k2 };
    assert(precedes_at(a, c, k));
}

/// Nothing comes before itself, and no two sequences come before each other.
pub proof fn lemma_precedes_asymmetric(a: Seq<char>, b: Seq<char>)
    requires
        precedes(a, b),
    ensures
        a != b,
        !precedes(b, a),
{
    let k1 = choose|k: int| precedes_at(a, b, k);
    if precedes(b, a) {
        let k2 = choose|k: int| precedes_at(b, a, k);
        assert(false);
    }
}

/// Each entry of `names` comes strictly before every later one.
pub open spec fn strictly_ascending(names: Seq<Seq<char>>) -> bool {
    forall|i: int, j: int| 0 <= i < j < names.len() ==> precedes(names[i], names[j])
}

/// Two strictly ascending sequences that hold the same names are the same
/// sequence.
pub proof fn lemma_ascending_unique(a: Seq<Seq<char>>, b: Seq<Seq<char>>)
    requires
        strictly_ascending(a),
        strictly_ascending(b),
        forall|x: Seq<char>| a.contains(x) <==> b.contains(x),
    ensures
        a == b,
    decreases a.len(),
{
    if a.len() == 0 {
        if b.len() > 0 {
            assert(b.contains(b[0]));
        }
        assert(a =~= b);
    } else {
        let top = a.last();
        assert(a.contains(top));
        assert(b.contains(top));
        let j = choose|j: int| 0 <= j < b.len() && b[j] == top;
        if j < b.len() - 1 {
            let over = b.last();
            assert(precedes(top, over));
            assert(b.contains(over));
            assert(a.contains(over));
            let i = choose|i: int| 0 <= i < a.len() && a[i] == over;
            if i < a.len() - 1 {
                assert(precedes(a[i], top));
            }
            lemma_precedes_asymmetric(top, over);
        }
        let a0 = a.drop_last();
        let b0 = b.drop_last();
        assert forall|x: Seq<char>| a0.contains(x) <==> b0.contains(x) by {
            if a0.contains(x) {
                let i = choose|i: int| 0 <= i < a0.len() && a0[i] == x;
                assert(precedes(a[i], top));
                lemma_precedes_asymmetric(x, top);
                assert(a.contains(x));
                assert(b.contains(x));
                let k = choose|k: int| 0 <= k < b.len() && b[k] == x;
                assert(b0[k] == x);
            }
            if b0.contains(x) {
                let i = choose|i: int| 0 <= i < b0.len() && b0[i] == x;
                assert(precedes(b[i], top));
                lemma_precedes_asymmetric(x, top);
                assert(b.contains(x));
                assert(a.contains(x));
                let k = choose|k: int| 0 <= k < a.len() && a[k] == x;
                assert(a0[k] == x);
            }
        }
        lemma_ascending_unique(a0, b0);
        assert(a =~= a0.push(top));
        assert(b =~= b0.push(top));
    }
}

/// The characters of `s`, in order.
pub fn chars_of(s: &str) -> (v: Vec<char>)
    ensures
        v@ == s@,
{
    broadcast use vstd::string::group_string_axioms;

    let mut v: Vec<char> = Vec::new();
    for c in it: s.chars()
        invariant
            it.seq() == s@,
            v@ == it.seq().take(it.index()),
    {
        v.push(c);
    }
    v
}

/// A name for the result of `str::to_lowercase`: the lower-case form of `s`
/// under the Unicode case mapping that std carries.
pub uninterp spec fn lowercase(s: Seq<char>) -> Seq<char>;

/// Calls `str::to_lowercase`. The contract only names the result: nothing is
/// claimed of the mapping itself.
#[verifier::external_body]
pub(crate) fn to_lowercase(s: &str) -> (lower: String)
    ensures
        lower@ == lowercase(s@),
{
    s.to_lowercase()
}

/// Calls `String::push`, which appends one character to the string.
#[verifier::external_body]
pub(crate) fn push_char(s: &mut String, c: char)
    ensures
        final(s)@ == old(s)@.push(c),
{
    s.push(c)
}

/// The string that holds the characters `chars`, in their order.
pub fn string_from_chars(chars: &[char]) -> (s: String)
    ensures
        s@ == chars@,
{
    let mut s = String::new();
    let mut i: usize = 0;
    while i < chars.len()
        invariant
            i <= chars@.len(),
            s@ == chars@.take(i as int),
        decreases chars@.len() - i,
    {
        push_char(&mut s, chars[i]);
        assert(chars@.take(i + 1) =~= chars@.take(i as int).push(chars@[i as int]));
        i += 1;
    }
    assert(chars@.take(chars@.len() as int) =~= chars@);
    s
}

/// Whether `p` stands in `s` at position `at`.
pub fn matches_at(s: &[char], p: &[char], at: usize) -> (r: bool)
    ensures
        r == occurs_at(p@, s@, at as int),
{
    let n: usize = s.len();
    if at > n || p.len() > n - at {
        return false;
    }
    let mut i: usize = 0;
    while i < p.len()
        invariant
            i <= p@.len(),
            at + p@.len() <= s@.len() == n,
            forall|j: int| 0 <= j < i ==> s@[at + j] == p@[j],
        decreases p@.len() - i,
    {
        if s[at + i] != p[i] {
            proof {
                let part = s@.subrange(at as int, at + p@.len());
                assert(part[i as int] == s@[at + i]);
            }
            return false;
        }
        i += 1;
    }
    assert(s@.subrange(at as int, at + p@.len()) =~= p@);
    true
}

/// Whether `s` begins with `p`.
pub fn starts_with(s: &[char], p: &[char]) -> (r: bool)
    ensures
        r == is_prefix(p@, s@),
{
    if p.len() > s.len() {
        return false;
    }
    matches_at(s, p, 0)
}

/// Whether `s` ends with `p`.
pub fn ends_with(s: &[char], p: &[char]) -> (r: bool)
    ensures
        r == is_suffix(p@, s@),
{
    if p.len() > s.len() {
        return false;
    }
    matches_at(s, p, s.len() - p.len())
}

/// Whether `p` stands somewhere in `s`.
pub fn contains(s: &[char], p: &[char]) -> (r: bool)
    ensures
        r == occurs_in(p@, s@),
{
    if p.len() > s.len() {
        return false;
    }
    if p.len() == 0 {
        assert(occurs_at(p@, s@, 0)) by {
            assert(s@.subrange(0, 0) =~= p@);
        }
        return true;
    }
    let last: usize = s.len() - p.len();
    let mut i: usize = 0;
    while i <= last
        invariant
            last == s@.len() - p@.len(),
            last < usize::MAX,
            i <= last + 1,
            forall|j: int| 0 <= j < i ==> !occurs_at(p@, s@, j),
        decreases last + 1 - i,
    {
        if matches_at(s, p, i) {
            return true;
        }
        i += 1;
    }
    false
}

/// Whether `s` ends with one of `patterns`.
pub fn ends_with_any(s: &[char], patterns: &Vec<Vec<char>>) -> (r: bool)
    ensures
        r == any_is_suffix(table_view(patterns@), s@),
{
    let mut k: usize = 0;
    while k < patterns.len()
        invariant
            k <= patterns@.len(),
            forall|j: int| 0 <= j < k ==> !is_suffix(#[trigger] table_view(patterns@)[j], s@),
        decreases patterns@.len() - k,
    {
        assert(table_view(patterns@)[k as int] == patterns@[k as int]@);
        if ends_with(s, patterns[k].as_slice()) {
            return true;
        }
        k += 1;
    }
    false
}

/// Whether one of `patterns` stands somewhere in `s`.
pub fn contains_any(s: &[char], patterns: &Vec<Vec<char>>) -> (r: bool)
    ensures
        r == any_occurs_in(table_view(patterns@), s@),
{
    let mut k: usize = 0;
    while k < patterns.len()
        invariant
            k <= patterns@.len(),
            forall|j: int| 0 <= j < k ==> !occurs_in(#[trigger] table_view(patterns@)[j], s@),
        decreases patterns@.len() - k,
    {
        assert(table_view(patterns@)[k as int] == patterns@[k as int]@);
        if contains(s, patterns[k].as_slice()) {
            return true;
        }
        k += 1;
    }
    false
}

/// Whether `a` and `b` hold the same characters.
pub fn same_chars(a: &[char], b: &[char]) -> (r: bool)
    ensures
        r == (a@ == b@),
{
    if a.len() != b.len() {
        return false;
    }
    let r = matches_at(a, b, 0);
    assert(a@.subrange(0, a@.len() as int) =~= a@);
    r
}

/// Where `a` stands to `b` in lexicographic order.
pub fn rank(a: &[char], b: &[char]) -> (r: Rank)
    ensures
        r == Rank::Before <==> precedes(a@, b@),
        r == Rank::Same <==> a@ == b@,
        r == Rank::After <==> precedes(b@, a@),
{
    let mut i: usize = 0;
    while i < a.len() && i < b.len()
        invariant
            i <= a@.len(),
            i <= b@.len(),
            forall|j: int| 0 <= j < i ==> a@[j] == b@[j],
        decreases a@.len() - i,
    {
        if a[i] != b[i] {
            if a[i] < b[i] {
                assert(precedes_at(a@, b@, i as int));
                proof {
                    lemma_precedes_asymmetric(a@, b@);
                }
                return Rank::Before;
            } else {
                assert(precedes_at(b@, a@, i as int));
                proof {
                    lemma_precedes_asymmetric(b@, a@);
                }
                return Rank::After;
            }
        }
        i += 1;
    }
    if a.len() == b.len() {
        assert(a@ =~= b@);
        proof {
            if precedes(a@, b@) {
                lemma_precedes_asymmetric(a@, b@);
            }
        }
        Rank::Same
    } else if a.len() < b.len() {
        assert(precedes_at(a@, b@, i as int));
        proof {
            lemma_precedes_asymmetric(a@, b@);
        }
        Rank::Before
    } else {
        assert(precedes_at(b@, a@, i as int));
        proof {
            lemma_precedes_asymmetric(b@, a@);
        }
        Rank::After
    }
}

/// A copy of the characters of `s`.
pub fn copy_chars(s: &[char]) -> (out: Vec<char>)
    ensures
        out@ == s@,
{
    let mut out: Vec<char> = Vec::new();
    let mut i: usize = 0;
    while i < s.len()
        invariant
            i <= s@.len(),
            out@ == s@.take(i as int),
        decreases s@.len() - i,
    {
        out.push(s[i]);
        assert(s@.take(i + 1) =~= s@.take(i as int).push(s@[i as int]));
        i += 1;
    }
    assert(s@.take(s@.len() as int) =~= s@);
    out
}

/// Enters `item` into the strictly ascending `list`, at the place that the
/// order gives it; a list that holds it already stays as it is.
pub fn insert_ascending(list: &mut Vec<Vec<char>>, item: Vec<char>)
    requires
        strictly_ascending(table_view(old(list)@)),
    ensures
        strictly_ascending(table_view(final(list)@)),
        forall|x: Seq<char>|
            table_view(final(list)@).contains(x) <==> (table_view(old(list)@).contains(x) || x
                == item@),
{
    let ghost before = table_view(list@);
    let mut k: usize = 0;
    let mut placed: bool = false;
    while k < list.len() && !placed
        invariant
            k <= list@.len(),
            before == table_view(list@),
            strictly_ascending(before),
            forall|j: int| 0 <= j < k ==> precedes(#[trigger] before[j], item@),
            placed ==> k < list@.len() && precedes(item@, before[k as int]),
        decreases list@.len() - k, if placed { 0int } else { 1int },
    {
        assert(before[k as int] == list@[k as int]@);
        match rank(list[k].as_slice(), item.as_slice()) {
            Rank::Before => {
                k += 1;
            },
            Rank::Same => {
                assert(before.contains(item@));
                return ;
            },
            Rank::After => {
                placed = true;
            },
        }
    }
    let ghost name = item@;
    list.insert(k, item);
    proof {
        let after = table_view(list@);
        assert(after =~= before.insert(k as int, name));
        assert forall|i: int, j: int| 0 <= i < j < after.len() implies precedes(
            after[i],
            after[j],
        ) by {
            let bi = if i < k { i } else { i - 1 };
            let bj = if j < k { j } else { j - 1 };
            if i == k {
                assert(after[j] == before[bj]);
                if bj > k {
                    assert(precedes(before[k as int], before[bj]));
                    lemma_precedes_transitive(name, before[k as int], before[bj]);
                }
            } else if j == k {
                assert(after[i] == before[bi]);
            } else {
                assert(after[i] == before[bi]);
                assert(after[j] == before[bj]);
            }
        }
        assert forall|x: Seq<char>| after.contains(x) <==> (before.contains(x) || x == name) by {
            if after.contains(x) {
                let i = choose|i: int| 0 <= i < after.len() && after[i] == x;
                if i != k {
                    let bi = if i < k { i } else { i - 1 };
                    assert(before[bi] == x);
                }
            }
            if before.contains(x) {
                let i = choose|i: int| 0 <= i < before.len() && before[i] == x;
                let ai = if i < k { i } else { i + 1 };
                assert(after[ai] == x);
            }
            if x == name {
                assert(after[k as int] == x);
            }
        }
    }
}

} // verus!
