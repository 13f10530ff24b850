//! The shape of a directory tree, and that the files alone decide it.

use vstd::prelude::*;
use crate::aggregate::{lemma_total_witness, total_under};
use crate::candidate::CandidateView;
use crate::path::directory_of;
use crate::text::{lemma_ascending_unique, precedes, strictly_ascending};
use crate::tree::TreeIndex;

verus! {

/// What a tree shows of one directory.
pub ghost struct NodeShape {
    /// The names of the directories directly inside, in the order shown.
    pub children: Seq<Seq<char>>,
    /// The positions of the candidates directly inside.
    pub files: Seq<usize>,
}

/// Some file of `list` lies directly in `dir`.
pub open spec fn holds_directory(list: Seq<CandidateView>, dir: Seq<Seq<char>>) -> bool {
    exists|j: int| 0 <= j < list.len() && directory_of(#[trigger] list[j].file_path) == dir
}

/// Every directory that holds a file of `a` holds a file of `b`.
pub open spec fn directories_among(a: Seq<CandidateView>, b: Seq<CandidateView>) -> bool {
    forall|k: int|
        0 <= k < a.len() ==> holds_directory(b, directory_of(#[trigger] a[k].file_path))
}

/// The files of the two collections lie in the same directories; their
/// number and their order may differ.
pub open spec fn same_directories(a: Seq<CandidateView>, b: Seq<CandidateView>) -> bool {
    directories_among(a, b) && directories_among(b, a)
}

impl TreeIndex {
    /// The names of the children of node `i`, in their order.
    pub open spec fn child_names(&self, i: int) -> Seq<Seq<char>> {
        Seq::new(self.nodes[i].children.len() as nat, |k: int| self.name(self.child(i, k)))
    }

    /// The node that stands for the directory `dir`.
    pub open spec fn node_of(&self, dir: Seq<Seq<char>>) -> int {
        choose|i: int| 0 <= i < self.nodes.len() && #[trigger] self.path(i) == dir
    }

    /// The outline of the tree: for each directory that has a node, the
    /// names of its children in order.
    pub open spec fn outline(&self) -> Map<Seq<Seq<char>>, Seq<Seq<char>>> {
        Map::new(
            |dir: Seq<Seq<char>>| self.has_node(dir),
            |dir: Seq<Seq<char>>| self.child_names(self.node_of(dir)),
        )
    }

    /// The shape of the tree: for each directory that has a node, the names
    /// of its children in order and the candidates directly in it.
    pub open spec fn shape(&self) -> Map<Seq<Seq<char>>, NodeShape> {
        Map::new(
            |dir: Seq<Seq<char>>| self.has_node(dir),
            |dir: Seq<Seq<char>>|
                NodeShape {
                    children: self.child_names(self.node_of(dir)),
                    files: self.files(self.node_of(dir)),
                },
        )
    }

    /// A directory with a node in the index of one collection has a node in
    /// the index of every collection that has files in the same directories.
    pub proof fn lemma_same_nodes(
        &self,
        other: TreeIndex,
        mine: Seq<CandidateView>,
        theirs: Seq<CandidateView>,
        dir: Seq<Seq<char>>,
    )
        requires
            self.indexes(mine),
            other.indexes(theirs),
            directories_among(mine, theirs),
            self.has_node(dir),
        ensures
            other.has_node(dir),
    {
        let i = self.node_of(dir);
        assert(total_under(mine, self.path(i)) > 0);
        let k = lemma_total_witness(mine, dir);
        assert(holds_directory(theirs, directory_of(mine[k].file_path)));
        let j = choose|j: int|
            0 <= j < theirs.len() && directory_of(#[trigger] theirs[j].file_path) == directory_of(
                mine[k].file_path,
            );
        if !other.has_node(dir) {
            other.lemma_no_node_no_candidates(theirs, dir);
            assert(false);
        }
    }

    /// The names of a node's children, as the index of one collection shows
    /// them, all stand among those that the index of another shows, where
    /// the other collection has files in the same directories.
    pub proof fn lemma_child_names_shared(
        &self,
        other: TreeIndex,
        mine: Seq<CandidateView>,
        theirs: Seq<CandidateView>,
        i: int,
        j: int,
        x: Seq<char>,
    )
        requires
            self.indexes(mine),
            other.indexes(theirs),
            directories_among(mine, theirs),
            0 <= i < self.nodes.len(),
            0 <= j < other.nodes.len(),
            self.path(i) == other.path(j),
            self.child_names(i).contains(x),
        ensures
            other.child_names(j).contains(x),
    {
        let k = choose|k: int| 0 <= k < self.child_names(i).len() && self.child_names(i)[k] == x;
        let c = self.child(i, k);
        assert(self.hangs_below(c, i));
        self.lemma_same_nodes(other, mine, theirs, self.path(c));
        let d = other.node_of(self.path(c));
        let m = other.lemma_child_found(j, d);
        assert(other.child_names(j)[m] == x);
    }

    /// The children of a node stand in strict order of their names.
    pub proof fn lemma_child_names_ascending(&self, i: int)
        requires
            self.wf(),
            0 <= i < self.nodes.len(),
        ensures
            strictly_ascending(self.child_names(i)),
    {
        let names = self.child_names(i);
        assert forall|k1: int, k2: int| 0 <= k1 < k2 < names.len() implies precedes(
            names[k1],
            names[k2],
        ) by {
            assert(precedes(self.name(self.child(i, k1)), self.name(self.child(i, k2))));
        }
    }

    /// The directories alone decide the outline of the tree: the indexes of
    /// two collections whose files lie in the same directories have the same
    /// nodes, each with the same children in the same order, in whatever
    /// order the files were found.
    pub proof fn lemma_outline_determined(
        &self,
        other: TreeIndex,
        mine: Seq<CandidateView>,
        theirs: Seq<CandidateView>,
    )
        requires
            self.indexes(mine),
            other.indexes(theirs),
            same_directories(mine, theirs),
        ensures
            self.outline() == other.outline(),
            forall|dir: Seq<Seq<char>>| self.has_node(dir) <==> other.has_node(dir),
    {
        assert forall|dir: Seq<Seq<char>>| self.has_node(dir) <==> other.has_node(dir) by {
            if self.has_node(dir) {
                self.lemma_same_nodes(other, mine, theirs, dir);
            }
            if other.has_node(dir) {
                other.lemma_same_nodes(*self, theirs, mine, dir);
            }
        }
        assert forall|dir: Seq<Seq<char>>| self.has_node(dir) implies #[trigger] self.outline()[dir]
            == other.outline()[dir] by {
            let i = self.node_of(dir);
            let j = other.node_of(dir);
            let a = self.child_names(i);
            let b = other.child_names(j);
            assert forall|x: Seq<char>| a.contains(x) <==> b.contains(x) by {
                if a.contains(x) {
                    self.lemma_child_names_shared(other, mine, theirs, i, j, x);
                }
                if b.contains(x) {
                    other.lemma_child_names_shared(*self, theirs, mine, j, i, x);
                }
            }
            self.lemma_child_names_ascending(i);
            other.lemma_child_names_ascending(j);
            lemma_ascending_unique(a, b);
        }
        assert(self.outline() =~= other.outline());
    }

    /// The files alone decide the shape of the tree: two indexes of the same
    /// collection have the same nodes, each with the same children in the
    /// same order and with the same files. Building the tree twice over one
    /// collection therefore gives the same tree.
    pub proof fn lemma_shape_determined(&self, other: TreeIndex, candidates: Seq<CandidateView>)
        requires
            self.indexes(candidates),
            other.indexes(candidates),
        ensures
            self.shape() == other.shape(),
    {
        assert(directories_among(candidates, candidates));
        self.lemma_outline_determined(other, candidates, candidates);
        assert forall|dir: Seq<Seq<char>>| self.has_node(dir) implies #[trigger] self.shape()[dir]
            == other.shape()[dir] by {
            let i = self.node_of(dir);
            let j = other.node_of(dir);
            assert(self.files(i) == other.files(j));
            assert(self.outline()[dir] == other.outline()[dir]);
        }
        assert(self.shape() =~= other.shape());
    }
}

} // verus!
