//! A scan result together with its tree.
//!
//! The session owns the candidate collection and the tree built over it, and
//! keeps the two in step: whatever is asked of it, the tree is the index of
//! the collection. Its functions therefore ask nothing of their caller.

use vstd::prelude::*;
use crate::aggregate::{apply_selection, selected_under, total_under};
use crate::browse::{count_recursive, count_selected, select_all, set_selection};
use crate::candidate::{views, CandidateView, ScanCandidate};
use crate::path::{root, segments};
use crate::rebuild::rebuild_tree;
use crate::tree::TreeIndex;

verus! {

/// A candidate collection with the tree over it.
pub struct ScanSession {
    candidates: Vec<ScanCandidate>,
    tree: TreeIndex,
}

impl View for ScanSession {
    type V = Seq<CandidateView>;

    closed spec fn view(&self) -> Seq<CandidateView> {
        views(self.candidates@)
    }
}

impl ScanSession {
    #[verifier::type_invariant]
    spec fn in_step(&self) -> bool {
        self.tree.indexes(views(self.candidates@))
    }

    /// The tree of the session.
    pub closed spec fn index(&self) -> TreeIndex {
        self.tree
    }

    /// Takes the collection over and builds its tree.
    pub fn new(candidates: Vec<ScanCandidate>) -> (session: ScanSession)
        ensures
            session@ == views(candidates@),
            session.index().indexes(session@),
    {
        let tree = rebuild_tree(candidates.as_slice());
        ScanSession { candidates, tree }
    }

    /// The candidates, in the order in which they were found.
    pub fn candidates(&self) -> (list: &Vec<ScanCandidate>)
        ensures
            views(list@) == self@,
    {
        &self.candidates
    }

    /// The tree over the candidates.
    pub fn tree(&self) -> (tree: &TreeIndex)
        ensures
            *tree == self.index(),
            tree.indexes(self@),
    {
        proof {
            use_type_invariant(self);
        }
        &self.tree
    }

    /// Counts the candidates in the directory `node_path` and below it, and
    /// how many of them are selected.
    pub fn count(&self, node_path: &str) -> (counts: (usize, usize))
        ensures
            counts.0 == total_under(self@, segments(node_path@)),
            counts.1 == selected_under(self@, segments(node_path@)),
            counts.1 <= counts.0,
    {
        proof {
            use_type_invariant(self);
        }
        count_recursive(&self.tree, self.candidates.as_slice(), node_path)
    }

    /// Counts the candidates in the node at `position` of the tree and below
    /// it, and how many of them are selected. Nothing where the tree has no
    /// such node.
    pub fn count_node(&self, position: usize) -> (counts: Option<(usize, usize)>)
        ensures
            counts is Some <==> position < self.index().nodes.len(),
            counts matches Some(c) ==> c.0 == total_under(self@, self.index().path(position as int))
                && c.1 == selected_under(self@, self.index().path(position as int)),
    {
        proof {
            use_type_invariant(self);
        }
        if position < self.tree.len() {
            Some(self.tree.count_node(self.candidates.as_slice(), position))
        } else {
            None
        }
    }

    /// How many candidates are selected in all.
    pub fn selected_count(&self) -> (n: usize)
        ensures
            n == selected_under(self@, root()),
    {
        count_selected(self.candidates.as_slice())
    }

    /// The session after the selection of every candidate in the directory
    /// `node_path` and below it has been set to `value`.
    pub fn with_selection(self, node_path: &str, value: bool) -> (session: ScanSession)
        ensures
            session@ == apply_selection(self@, segments(node_path@), value),
            session.index() == self.index(),
    {
        proof {
            use_type_invariant(&self);
        }
        let ScanSession { mut candidates, tree } = self;
        set_selection(&tree, candidates.as_mut_slice(), node_path, value);
        ScanSession { candidates, tree }
    }

    /// The session after the selection of every candidate in the node at
    /// `position` of the tree and below it has been set to `value`. Where the
    /// tree has no such node, the session is as it was.
    pub fn with_node_selection(self, position: usize, value: bool) -> (session: ScanSession)
        ensures
            position < self.index().nodes.len() ==> session@ == apply_selection(
                self@,
                self.index().path(position as int),
                value,
            ),
            position >= self.index().nodes.len() ==> session@ == self@,
            session.index() == self.index(),
    {
        proof {
            use_type_invariant(&self);
        }
        let ScanSession { mut candidates, tree } = self;
        if position < tree.len() {
            let ghost before = views(candidates@);
            tree.set_selection_recursive(candidates.as_mut_slice(), position, value);
            proof {
                tree.lemma_indexes_same_files(before, views(candidates@));
            }
        }
        ScanSession { candidates, tree }
    }

    /// The session after the selection of every candidate has been set to
    /// `value`.
    pub fn with_all(self, value: bool) -> (session: ScanSession)
        ensures
            session@ == apply_selection(self@, root(), value),
            session.index() == self.index(),
    {
        proof {
            use_type_invariant(&self);
        }
        let ScanSession { mut candidates, tree } = self;
        let ghost before = views(candidates@);
        select_all(candidates.as_mut_slice(), value);
        proof {
            tree.lemma_indexes_same_files(before, views(candidates@));
        }
        ScanSession { candidates, tree }
    }

    /// The session after the selection of the candidate at `position` has
    /// been set to `value`. Where there is no such candidate, the session is
    /// as it was.
    pub fn with_selected(self, position: usize, value: bool) -> (session: ScanSession)
        ensures
            position < self@.len() ==> session@ == self@.update(
                position as int,
                CandidateView { should_delete: value, ..self@[position as int] },
            ),
            position >= self@.len() ==> session@ == self@,
            session.index() == self.index(),
    {
        proof {
            use_type_invariant(&self);
        }
        let ScanSession { mut candidates, tree } = self;
        if position < candidates.len() {
            let ghost before = views(candidates@);
            candidates[position].should_delete = value;
            proof {
                let now = views(candidates@);
                assert(now =~= before.update(
                    position as int,
                    CandidateView { should_delete: value, ..before[position as int] },
                ));
                tree.lemma_indexes_same_files(before, now);
            }
        }
        ScanSession { candidates, tree }
    }

    /// Ends the session and hands the collection out.
    pub fn into_candidates(self) -> (list: Vec<ScanCandidate>)
        ensures
            views(list@) == self@,
    {
        self.candidates
    }
}

} // verus!
