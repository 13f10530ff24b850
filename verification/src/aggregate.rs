//! What the selection tree reports, stated over the flat candidate collection.
//!
//! The counts and the effect of a bulk selection are defined here without any
//! tree: a candidate belongs to a directory node when its own directory is
//! that node or lies below it.

use vstd::prelude::*;
use crate::candidate::CandidateView;
use crate::path::{directory_of, lies_under, within, lemma_within_transitive};

verus! {

/// Whether a candidate is counted: always, or only where it is selected.
pub open spec fn counted(candidate: CandidateView, only_selected: bool) -> bool {
    only_selected ==> candidate.should_delete
}

/// How many candidates lie in `node` or below it; with `only_selected`, how
/// many of them are selected.
pub open spec fn count_under(
    candidates: Seq<CandidateView>,
    node: Seq<Seq<char>>,
    only_selected: bool,
) -> nat
    decreases candidates.len(),
{
    if candidates.len() == 0 {
        0
    } else {
        let rest = count_under(candidates.drop_last(), node, only_selected);
        let last = candidates.last();
        if lies_under(last.file_path, node) && counted(last, only_selected) {
            rest + 1
        } else {
            rest
        }
    }
}

/// How many candidates lie in `node` or below it.
pub open spec fn total_under(candidates: Seq<CandidateView>, node: Seq<Seq<char>>) -> nat {
    count_under(candidates, node, false)
}

/// How many selected candidates lie in `node` or below it.
pub open spec fn selected_under(candidates: Seq<CandidateView>, node: Seq<Seq<char>>) -> nat {
    count_under(candidates, node, true)
}

/// How many candidates lie directly in `dir`; with `only_selected`, how many
/// of them are selected.
pub open spec fn count_in(
    candidates: Seq<CandidateView>,
    dir: Seq<Seq<char>>,
    only_selected: bool,
) -> nat
    decreases candidates.len(),
{
    if candidates.len() == 0 {
        0
    } else {
        let rest = count_in(candidates.drop_last(), dir, only_selected);
        let last = candidates.last();
        if directory_of(last.file_path) == dir && counted(last, only_selected) {
            rest + 1
        } else {
            rest
        }
    }
}

/// The positions of the candidates that lie directly in `dir`, ascending.
pub open spec fn indices_in(candidates: Seq<CandidateView>, dir: Seq<Seq<char>>) -> Seq<usize>
    decreases candidates.len(),
{
    if candidates.len() == 0 {
        Seq::empty()
    } else {
        let rest = indices_in(candidates.drop_last(), dir);
        if directory_of(candidates.last().file_path) == dir {
            rest.push((candidates.len() - 1) as usize)
        } else {
            rest
        }
    }
}

/// How many of the candidates at `positions` are counted.
pub open spec fn count_among(
    candidates: Seq<CandidateView>,
    positions: Seq<usize>,
    only_selected: bool,
) -> nat
    decreases positions.len(),
{
    if positions.len() == 0 {
        0
    } else {
        let rest = count_among(candidates, positions.drop_last(), only_selected);
        if counted(candidates[positions.last() as int], only_selected) {
            rest + 1
        } else {
            rest
        }
    }
}

/// Two collections hold the same files at the same positions; the selection
/// may differ.
pub open spec fn same_files(a: Seq<CandidateView>, b: Seq<CandidateView>) -> bool {
    a.len() == b.len() && forall|k: int| 0 <= k < a.len() ==> a[k].file_path == b[k].file_path
}

/// The collection after every candidate in `node` or below it has had its
/// selection set to `value`; all else is unchanged.
pub open spec fn apply_selection(
    candidates: Seq<CandidateView>,
    node: Seq<Seq<char>>,
    value: bool,
) -> Seq<CandidateView> {
    Seq::new(
        candidates.len(),
        |k: int|
            if lies_under(candidates[k].file_path, node) {
                CandidateView { should_delete: value, ..candidates[k] }
            } else {
                candidates[k]
            },
    )
}

/// What a folder shows of the selection below it.
#[derive(Clone, Copy, Debug, PartialEq, Eq, Structural)]
pub enum SelectionStatus {
    NoneSelected,
    AllSelected,
    Partial,
}

/// The status that belongs to a pair of counts.
pub open spec fn status_of(total: nat, selected: nat) -> SelectionStatus {
    if selected == 0 {
        SelectionStatus::NoneSelected
    } else if selected == total {
        SelectionStatus::AllSelected
    } else {
        SelectionStatus::Partial
    }
}

/// Derives the display status of a folder from its counts: nothing selected,
/// everything selected, or some of it.
pub fn selection_status(total: usize, selected: usize) -> (status: SelectionStatus)
    ensures
        status == status_of(total as nat, selected as nat),
{
    if selected == 0 {
        SelectionStatus::NoneSelected
    } else if selected == total {
        SelectionStatus::AllSelected
    } else {
        SelectionStatus::Partial
    }
}

/// The count below a node is the number of candidates whose path lies under
/// it, and never more than there are candidates.
pub proof fn lemma_total_is_filter_len(candidates: Seq<CandidateView>, node: Seq<Seq<char>>)
    ensures
        total_under(candidates, node) == candidates.filter(
            |c: CandidateView| lies_under(c.file_path, node),
        ).len(),
        total_under(candidates, node) <= candidates.len(),
    decreases candidates.len(),
{
    reveal(Seq::filter);
    lemma_count_bounds(candidates, node);
    lemma_total_is_filter_len_rec(candidates, node);
}

proof fn lemma_total_is_filter_len_rec(candidates: Seq<CandidateView>, node: Seq<Seq<char>>)
    ensures
        total_under(candidates, node) == candidates.filter(
            |c: CandidateView| lies_under(c.file_path, node),
        ).len(),
    decreases candidates.len(),
{
    reveal(Seq::filter);
    if candidates.len() > 0 {
        lemma_total_is_filter_len_rec(candidates.drop_last(), node);
    }
}

/// The selected count below a node is the number of selected candidates whose
/// path lies under it, and never more than the count of all below it.
pub proof fn lemma_selected_is_filter_len(candidates: Seq<CandidateView>, node: Seq<Seq<char>>)
    ensures
        selected_under(candidates, node) == candidates.filter(
            |c: CandidateView| lies_under(c.file_path, node) && c.should_delete,
        ).len(),
        selected_under(candidates, node) <= total_under(candidates, node),
    decreases candidates.len(),
{
    lemma_count_bounds(candidates, node);
    lemma_selected_is_filter_len_rec(candidates, node);
}

proof fn lemma_selected_is_filter_len_rec(candidates: Seq<CandidateView>, node: Seq<Seq<char>>)
    ensures
        selected_under(candidates, node) == candidates.filter(
            |c: CandidateView| lies_under(c.file_path, node) && c.should_delete,
        ).len(),
    decreases candidates.len(),
{
    reveal(Seq::filter);
    if candidates.len() > 0 {
        lemma_selected_is_filter_len_rec(candidates.drop_last(), node);
    }
}

/// Below any node no more candidates are selected than there are, and no
/// more are there than the collection holds.
pub proof fn lemma_count_bounds(candidates: Seq<CandidateView>, node: Seq<Seq<char>>)
    ensures
        selected_under(candidates, node) <= total_under(candidates, node) <= candidates.len(),
    decreases candidates.len(),
{
    if candidates.len() > 0 {
        lemma_count_bounds(candidates.drop_last(), node);
    }
}

/// The count of all candidates below a node depends on the files alone, not
/// on what is selected.
pub proof fn lemma_total_same_files(
    a: Seq<CandidateView>,
    b: Seq<CandidateView>,
    node: Seq<Seq<char>>,
)
    requires
        same_files(a, b),
    ensures
        total_under(a, node) == total_under(b, node),
        indices_in(a, node) == indices_in(b, node),
    decreases a.len(),
{
    if a.len() > 0 {
        lemma_total_same_files(a.drop_last(), b.drop_last(), node);
    }
}

/// The positions listed for a directory are those of its own files: each is
/// a position of the collection whose file lies directly in `dir`, and every
/// such position is listed.
pub proof fn lemma_indices_in(candidates: Seq<CandidateView>, dir: Seq<Seq<char>>)
    requires
        candidates.len() <= usize::MAX,
    ensures
        indices_in(candidates, dir).len() == count_in(candidates, dir, false),
        forall|m: int|
            0 <= m < indices_in(candidates, dir).len() ==> {
                let k = #[trigger] indices_in(candidates, dir)[m] as int;
                k < candidates.len() && directory_of(candidates[k].file_path) == dir
            },
        forall|k: int|
            0 <= k < candidates.len() && directory_of(#[trigger] candidates[k].file_path) == dir
                ==> indices_in(candidates, dir).contains(k as usize),
    decreases candidates.len(),
{
    if candidates.len() > 0 {
        let rest = candidates.drop_last();
        lemma_indices_in(rest, dir);
        let here = indices_in(candidates, dir);
        let before = indices_in(rest, dir);
        assert forall|k: int|
            0 <= k < candidates.len() && directory_of(#[trigger] candidates[k].file_path) == dir
            implies here.contains(k as usize) by {
            if k < rest.len() {
                assert(rest[k].file_path == candidates[k].file_path);
                assert(before.contains(k as usize));
                let m = choose|m: int| 0 <= m < before.len() && before[m] == k as usize;
                assert(here[m] == k as usize);
            } else {
                assert(here[here.len() - 1] == k as usize);
            }
        }
    }
}

/// Counting at given positions looks at those positions only.
pub proof fn lemma_count_among_prefix(
    candidates: Seq<CandidateView>,
    positions: Seq<usize>,
    only_selected: bool,
)
    requires
        candidates.len() > 0,
        forall|m: int| 0 <= m < positions.len() ==> (#[trigger] positions[m] as int) < candidates.len() - 1,
    ensures
        count_among(candidates, positions, only_selected) == count_among(
            candidates.drop_last(),
            positions,
            only_selected,
        ),
    decreases positions.len(),
{
    if positions.len() > 0 {
        lemma_count_among_prefix(candidates, positions.drop_last(), only_selected);
    }
}

/// Counting at the positions listed for a directory counts its own files.
pub proof fn lemma_count_among_indices(
    candidates: Seq<CandidateView>,
    dir: Seq<Seq<char>>,
    only_selected: bool,
)
    requires
        candidates.len() <= usize::MAX,
    ensures
        count_among(candidates, indices_in(candidates, dir), only_selected) == count_in(
            candidates,
            dir,
            only_selected,
        ),
    decreases candidates.len(),
{
    if candidates.len() > 0 {
        let rest = candidates.drop_last();
        lemma_count_among_indices(rest, dir, only_selected);
        lemma_indices_in(rest, dir);
        lemma_count_among_prefix(candidates, indices_in(rest, dir), only_selected);
        if directory_of(candidates.last().file_path) == dir {
            assert(indices_in(candidates, dir).drop_last() =~= indices_in(rest, dir));
        }
    }
}

/// A directory that holds none of the files has no positions listed.
pub proof fn lemma_indices_in_empty(candidates: Seq<CandidateView>, dir: Seq<Seq<char>>)
    requires
        forall|k: int|
            0 <= k < candidates.len() ==> directory_of(#[trigger] candidates[k].file_path) != dir,
    ensures
        indices_in(candidates, dir) == Seq::<usize>::empty(),
    decreases candidates.len(),
{
    if candidates.len() > 0 {
        let rest = candidates.drop_last();
        assert forall|k: int| 0 <= k < rest.len() implies directory_of(
            #[trigger] rest[k].file_path,
        ) != dir by {
            assert(rest[k].file_path == candidates[k].file_path);
        }
        lemma_indices_in_empty(rest, dir);
    }
}

/// Counting is monotone in the collection: a longer collection holds no fewer
/// candidates below a node.
pub proof fn lemma_total_monotone(candidates: Seq<CandidateView>, n: int, node: Seq<Seq<char>>)
    requires
        0 <= n <= candidates.len(),
    ensures
        total_under(candidates.take(n), node) <= total_under(candidates, node),
    decreases candidates.len(),
{
    if n < candidates.len() {
        assert(candidates.drop_last().take(n) =~= candidates.take(n));
        lemma_total_monotone(candidates.drop_last(), n, node);
    } else {
        assert(candidates.take(n) =~= candidates);
    }
}

/// A candidate that lies under a node is counted there.
pub proof fn lemma_total_positive(candidates: Seq<CandidateView>, k: int, node: Seq<Seq<char>>)
    requires
        0 <= k < candidates.len(),
        lies_under(candidates[k].file_path, node),
    ensures
        total_under(candidates, node) > 0,
    decreases candidates.len(),
{
    if k < candidates.len() - 1 {
        lemma_total_positive(candidates.drop_last(), k, node);
    }
}

/// Where something is counted below a node, some candidate lies under it.
pub proof fn lemma_total_witness(candidates: Seq<CandidateView>, node: Seq<Seq<char>>) -> (k: int)
    requires
        total_under(candidates, node) > 0,
    ensures
        0 <= k < candidates.len(),
        lies_under(candidates[k].file_path, node),
    decreases candidates.len(),
{
    if lies_under(candidates.last().file_path, node) {
        candidates.len() - 1
    } else {
        lemma_total_witness(candidates.drop_last(), node)
    }
}

/// After a node is selected, everything below it and below each of its
/// descendants is selected; after it is deselected, nothing is.
pub proof fn lemma_selection_fills_subtree(
    candidates: Seq<CandidateView>,
    node: Seq<Seq<char>>,
    below: Seq<Seq<char>>,
)
    requires
        within(below, node),
    ensures
        selected_under(apply_selection(candidates, node, true), below) == total_under(
            apply_selection(candidates, node, true),
            below,
        ),
        selected_under(apply_selection(candidates, node, false), below) == 0,
        total_under(apply_selection(candidates, node, true), below) == total_under(
            candidates,
            below,
        ),
        total_under(apply_selection(candidates, node, false), below) == total_under(
            candidates,
            below,
        ),
    decreases candidates.len(),
{
    if candidates.len() > 0 {
        let rest = candidates.drop_last();
        lemma_selection_fills_subtree(rest, node, below);
        assert(apply_selection(candidates, node, true).drop_last() =~= apply_selection(
            rest,
            node,
            true,
        ));
        assert(apply_selection(candidates, node, false).drop_last() =~= apply_selection(
            rest,
            node,
            false,
        ));
        let path = candidates.last().file_path;
        if lies_under(path, below) {
            lemma_within_transitive(directory_of(path), below, node);
        }
    }
}

/// Selecting a node twice with the same value is selecting it once.
pub proof fn lemma_selection_idempotent(
    candidates: Seq<CandidateView>,
    node: Seq<Seq<char>>,
    value: bool,
)
    ensures
        apply_selection(apply_selection(candidates, node, value), node, value) == apply_selection(
            candidates,
            node,
            value,
        ),
{
    assert(apply_selection(apply_selection(candidates, node, value), node, value)
        =~= apply_selection(candidates, node, value));
}

} // verus!
