//! The directory tree over a candidate collection.
//!
//! The tree holds one node for every directory that holds a candidate,
//! directly or below it, from the root down. Nodes stand in one vector; a node
//! names its children and the candidates that lie directly in it by position.
//! Children are kept in lexicographic order of their names, so that the shape
//! of the tree depends on the files alone and not on the order in which they
//! were found.

use vstd::prelude::*;
use crate::aggregate::{
    apply_selection, count_among, count_in, count_under, counted, indices_in,
    lemma_count_among_indices, lemma_count_bounds, lemma_indices_in, lemma_total_same_files,
    lemma_total_witness, same_files, selected_under, total_under,
};
use crate::candidate::{views, CandidateView, ScanCandidate};
use crate::path::{all_segments, directory_of, lies_under, within};
use crate::text::{
    lemma_precedes_asymmetric, lemma_precedes_transitive, precedes, rank, table_view, Rank,
};

verus! {

/// One directory of the tree.
pub struct TreeNode {
    /// The segments that lead from the root to this directory.
    pub segments: Vec<Vec<char>>,
    /// Position of the directory that holds this one; the root names itself.
    pub parent: usize,
    /// Positions of the directories directly inside this one, by name.
    pub children: Vec<usize>,
    /// Positions, in the candidate collection, of the files directly inside.
    pub files: Vec<usize>,
}

/// The directory tree over a candidate collection.
pub struct TreeIndex {
    pub nodes: Vec<TreeNode>,
}

impl TreeIndex {
    /// The directory that node `i` stands for.
    pub open spec fn path(&self, i: int) -> Seq<Seq<char>> {
        table_view(self.nodes[i].segments@)
    }

    /// The name of node `i`: the last segment of its directory.
    pub open spec fn name(&self, i: int) -> Seq<char> {
        self.path(i).last()
    }

    /// The `k`-th child of node `i`.
    pub open spec fn child(&self, i: int, k: int) -> int {
        self.nodes[i].children[k] as int
    }

    /// The candidate positions that node `i` lists.
    pub open spec fn files(&self, i: int) -> Seq<usize> {
        self.nodes[i].files@
    }

    /// Some node stands for the directory `dir`.
    pub open spec fn has_node(&self, dir: Seq<Seq<char>>) -> bool {
        exists|i: int| 0 <= i < self.nodes.len() && #[trigger] self.path(i) == dir
    }

    /// Node `c` is a directory directly inside node `i`, and stands behind it.
    pub open spec fn hangs_below(&self, c: int, i: int) -> bool {
        &&& i < c < self.nodes.len()
        &&& self.path(c).len() > 0
        &&& self.path(c).drop_last() == self.path(i)
        &&& self.nodes[c].parent == i
    }

    /// Node `j` is listed among the children of the node it names as parent.
    pub open spec fn listed(&self, j: int) -> bool {
        let p = self.nodes[j].parent as int;
        0 <= p < j && exists|k: int|
            0 <= k < self.nodes[p].children.len() && #[trigger] self.child(p, k) == j
    }

    /// The tree is well formed: node 0, if there is one, is the root; every
    /// node stands for a directory made of proper segments; no two nodes
    /// stand for the same directory; the children of a node are exactly the
    /// nodes directly inside it, in strict lexicographic order of names.
    pub open spec fn wf(&self) -> bool {
        &&& self.nodes.len() > 0 ==> self.path(0).len() == 0
        &&& forall|i: int| 0 <= i < self.nodes.len() ==> all_segments(#[trigger] self.path(i))
        &&& forall|i: int, j: int|
            0 <= i < j < self.nodes.len() ==> #[trigger] self.path(i) != #[trigger] self.path(j)
        &&& forall|i: int, k: int|
            0 <= i < self.nodes.len() && 0 <= k < self.nodes[i].children.len()
                ==> self.hangs_below(#[trigger] self.child(i, k), i)
        &&& forall|i: int, k1: int, k2: int|
            0 <= i < self.nodes.len() && 0 <= k1 < k2 < self.nodes[i].children.len() ==> precedes(
                self.name(#[trigger] self.child(i, k1)),
                self.name(#[trigger] self.child(i, k2)),
            )
        &&& forall|j: int| 0 < j < self.nodes.len() ==> #[trigger] self.listed(j)
    }

    /// The tree is the index of `candidates`: it is well formed, every
    /// directory that holds a candidate is a node, every node has a candidate
    /// in it or below it, and each node lists the candidates directly in it.
    pub open spec fn indexes(&self, candidates: Seq<CandidateView>) -> bool {
        &&& self.wf()
        &&& candidates.len() <= usize::MAX
        &&& forall|i: int|
            0 <= i < self.nodes.len() ==> #[trigger] self.files(i) == indices_in(
                candidates,
                self.path(i),
            )
        &&& forall|k: int|
            0 <= k < candidates.len() ==> self.has_node(
                directory_of(#[trigger] candidates[k].file_path),
            )
        &&& forall|i: int|
            0 <= i < self.nodes.len() ==> total_under(candidates, #[trigger] self.path(i)) > 0
    }

    /// What the first `upto` children of node `i` hold together.
    pub open spec fn children_count(
        &self,
        candidates: Seq<CandidateView>,
        i: int,
        upto: int,
        only_selected: bool,
    ) -> nat
        decreases upto,
    {
        if upto <= 0 {
            0
        } else {
            self.children_count(candidates, i, upto - 1, only_selected) + count_under(
                candidates,
                self.path(self.child(i, upto - 1)),
                only_selected,
            )
        }
    }

    /// How many of the first `upto` children of node `i` hold the directory
    /// `dir`, in them or below them.
    pub open spec fn children_holding(&self, i: int, upto: int, dir: Seq<Seq<char>>) -> nat
        decreases upto,
    {
        if upto <= 0 {
            0
        } else {
            self.children_holding(i, upto - 1, dir) + if within(
                dir,
                self.path(self.child(i, upto - 1)),
            ) {
                1nat
            } else {
                0nat
            }
        }
    }

    /// A node directly inside node `i` is one of its children.
    pub proof fn lemma_child_found(&self, i: int, j: int) -> (k: int)
        requires
            self.wf(),
            0 <= i < self.nodes.len(),
            0 <= j < self.nodes.len(),
            self.path(j).len() > 0,
            self.path(j).drop_last() == self.path(i),
        ensures
            0 <= k < self.nodes[i].children.len(),
            self.child(i, k) == j,
    {
        assert(j != 0);
        assert(self.listed(j));
        let p = self.nodes[j].parent as int;
        let k = choose|k: int|
            0 <= k < self.nodes[p].children.len() && #[trigger] self.child(p, k) == j;
        assert(self.hangs_below(self.child(p, k), p));
        assert(self.path(p) == self.path(i));
        k
    }

    /// With a node, the tree holds a node for each directory above it.
    pub proof fn lemma_ancestor_exists(&self, j: int, depth: int) -> (a: int)
        requires
            self.wf(),
            0 <= j < self.nodes.len(),
            0 <= depth <= self.path(j).len(),
        ensures
            0 <= a <= j,
            self.path(a) == self.path(j).take(depth),
        decreases j,
    {
        if depth == self.path(j).len() {
            assert(self.path(j).take(depth) =~= self.path(j));
            j
        } else {
            assert(self.listed(j));
            let p = self.nodes[j].parent as int;
            let k = choose|k: int|
                0 <= k < self.nodes[p].children.len() && #[trigger] self.child(p, k) == j;
            assert(self.hangs_below(self.child(p, k), p));
            let a = self.lemma_ancestor_exists(p, depth);
            assert(self.path(j).drop_last().take(depth) =~= self.path(j).take(depth));
            a
        }
    }

    /// A directory one level below node `i` lies in at most one child of `i`,
    /// and in one exactly where a child of `i` holds it.
    pub proof fn lemma_children_holding(&self, i: int, upto: int, dir: Seq<Seq<char>>)
        requires
            self.wf(),
            0 <= i < self.nodes.len(),
            0 <= upto <= self.nodes[i].children.len(),
        ensures
            self.children_holding(i, upto, dir) <= 1,
            self.children_holding(i, upto, dir) == 1 <==> exists|k: int|
                0 <= k < upto && within(dir, self.path(#[trigger] self.child(i, k))),
        decreases upto,
    {
        if upto > 0 {
            self.lemma_children_holding(i, upto - 1, dir);
            let last = self.child(i, upto - 1);
            if within(dir, self.path(last)) && self.children_holding(i, upto - 1, dir) == 1 {
                let k = choose|k: int|
                    0 <= k < upto - 1 && within(dir, self.path(#[trigger] self.child(i, k)));
                let other = self.child(i, k);
                assert(self.hangs_below(other, i));
                assert(self.hangs_below(last, i));
                let n = self.path(i).len() as int;
                assert(self.path(other).len() == n + 1);
                assert(self.path(last).len() == n + 1);
                assert(self.path(other) == dir.take(n + 1));
                assert(self.path(last) == dir.take(n + 1));
                assert(precedes(self.name(other), self.name(last)));
                lemma_precedes_asymmetric(self.name(other), self.name(last));
                assert(false);
            }
        }
    }

    /// A directory lies in node `i` or below it exactly when it is that node's
    /// own directory or lies in or below one of its children.
    pub proof fn lemma_children_cover(&self, i: int, dir: Seq<Seq<char>>)
        requires
            self.wf(),
            0 <= i < self.nodes.len(),
            self.has_node(dir),
        ensures
            within(dir, self.path(i)) <==> (dir == self.path(i) || exists|k: int|
                0 <= k < self.nodes[i].children.len() && within(
                    dir,
                    self.path(#[trigger] self.child(i, k)),
                )),
            dir == self.path(i) ==> !exists|k: int|
                0 <= k < self.nodes[i].children.len() && within(
                    dir,
                    self.path(#[trigger] self.child(i, k)),
                ),
    {
        let p = self.path(i);
        let n = p.len() as int;
        if dir == p {
            assert(dir.take(n) =~= dir);
        }
        if within(dir, p) && dir != p {
            assert(dir.len() > n) by {
                if dir.len() == n {
                    assert(dir.take(n) =~= dir);
                }
            }
            let d = choose|d: int| 0 <= d < self.nodes.len() && #[trigger] self.path(d) == dir;
            let j = self.lemma_ancestor_exists(d, n + 1);
            assert(self.path(j).drop_last() =~= p) by {
                assert(dir.take(n + 1).drop_last() =~= dir.take(n));
            }
            let k = self.lemma_child_found(i, j);
            assert(within(dir, self.path(self.child(i, k)))) by {
                assert(dir.take(n + 1) =~= self.path(j));
            }
        }
        assert forall|k: int|
            0 <= k < self.nodes[i].children.len() && within(
                dir,
                self.path(#[trigger] self.child(i, k)),
            ) implies within(dir, p) && dir != p by {
            let c = self.child(i, k);
            assert(self.hangs_below(c, i));
            assert(dir.take(n + 1).drop_last() =~= dir.take(n));
        }
    }

    /// Adding one candidate adds one to the count of the children that hold
    /// its directory, where it is counted at all.
    pub proof fn lemma_children_count_step(
        &self,
        candidates: Seq<CandidateView>,
        i: int,
        upto: int,
        only_selected: bool,
    )
        requires
            candidates.len() > 0,
            0 <= upto,
        ensures
            self.children_count(candidates, i, upto, only_selected) == self.children_count(
                candidates.drop_last(),
                i,
                upto,
                only_selected,
            ) + if counted(candidates.last(), only_selected) {
                self.children_holding(i, upto, directory_of(candidates.last().file_path))
            } else {
                0nat
            },
        decreases upto,
    {
        if upto > 0 {
            self.lemma_children_count_step(candidates, i, upto - 1, only_selected);
        }
    }

    /// What the children hold grows with the number of children looked at.
    pub proof fn lemma_children_count_monotone(
        &self,
        candidates: Seq<CandidateView>,
        i: int,
        upto: int,
        all: int,
        only_selected: bool,
    )
        requires
            0 <= upto <= all,
        ensures
            self.children_count(candidates, i, upto, only_selected) <= self.children_count(
                candidates,
                i,
                all,
                only_selected,
            ),
        decreases all,
    {
        if upto < all {
            self.lemma_children_count_monotone(candidates, i, upto, all - 1, only_selected);
        }
    }

    /// What a node holds is what lies directly in it and what its children
    /// hold: every candidate below the node is counted once.
    pub proof fn lemma_count_splits(
        &self,
        candidates: Seq<CandidateView>,
        i: int,
        only_selected: bool,
    )
        requires
            self.wf(),
            0 <= i < self.nodes.len(),
            forall|k: int|
                0 <= k < candidates.len() ==> self.has_node(
                    directory_of(#[trigger] candidates[k].file_path),
                ),
        ensures
            count_under(candidates, self.path(i), only_selected) == count_in(
                candidates,
                self.path(i),
                only_selected,
            ) + self.children_count(
                candidates,
                i,
                self.nodes[i].children.len() as int,
                only_selected,
            ),
        decreases candidates.len(),
    {
        let all = self.nodes[i].children.len() as int;
        if candidates.len() == 0 {
            self.lemma_children_count_empty(candidates, i, all, only_selected);
        } else {
            let rest = candidates.drop_last();
            assert forall|k: int| 0 <= k < rest.len() implies self.has_node(
                directory_of(#[trigger] rest[k].file_path),
            ) by {
                assert(rest[k].file_path == candidates[k].file_path);
            }
            self.lemma_count_splits(rest, i, only_selected);
            self.lemma_children_count_step(candidates, i, all, only_selected);
            let dir = directory_of(candidates.last().file_path);
            assert(dir == directory_of(candidates[candidates.len() - 1].file_path));
            self.lemma_children_holding(i, all, dir);
            self.lemma_children_cover(i, dir);
        }
    }

    /// Of an empty collection the children hold nothing.
    pub proof fn lemma_children_count_empty(
        &self,
        candidates: Seq<CandidateView>,
        i: int,
        upto: int,
        only_selected: bool,
    )
        requires
            candidates.len() == 0,
        ensures
            self.children_count(candidates, i, upto, only_selected) == 0,
        decreases upto,
    {
        if upto > 0 {
            self.lemma_children_count_empty(candidates, i, upto - 1, only_selected);
        }
    }

    /// An index stays the index of a collection whose files are the same:
    /// what is selected plays no part in it.
    pub proof fn lemma_indexes_same_files(&self, a: Seq<CandidateView>, b: Seq<CandidateView>)
        requires
            self.indexes(a),
            same_files(a, b),
        ensures
            self.indexes(b),
    {
        assert forall|i: int| 0 <= i < self.nodes.len() implies #[trigger] self.files(i)
            == indices_in(b, self.path(i)) by {
            lemma_total_same_files(a, b, self.path(i));
        }
        assert forall|i: int| 0 <= i < self.nodes.len() implies total_under(
            b,
            #[trigger] self.path(i),
        ) > 0 by {
            lemma_total_same_files(a, b, self.path(i));
        }
        assert forall|k: int| 0 <= k < b.len() implies self.has_node(
            directory_of(#[trigger] b[k].file_path),
        ) by {
            assert(a[k].file_path == b[k].file_path);
        }
    }

    /// Where no node stands for a directory, no candidate lies under it.
    pub proof fn lemma_no_node_no_candidates(
        &self,
        candidates: Seq<CandidateView>,
        dir: Seq<Seq<char>>,
    )
        requires
            self.indexes(candidates),
            !self.has_node(dir),
        ensures
            total_under(candidates, dir) == 0,
            forall|k: int|
                0 <= k < candidates.len() ==> !lies_under(#[trigger] candidates[k].file_path, dir),
    {
        assert forall|k: int| 0 <= k < candidates.len() implies !lies_under(
            #[trigger] candidates[k].file_path,
            dir,
        ) by {
            let own = directory_of(candidates[k].file_path);
            if within(own, dir) {
                let d = choose|d: int| 0 <= d < self.nodes.len() && #[trigger] self.path(d) == own;
                let a = self.lemma_ancestor_exists(d, dir.len() as int);
                assert(self.path(a) == dir);
            }
        }
        if total_under(candidates, dir) > 0 {
            let k = lemma_total_witness(candidates, dir);
        }
    }

    /// The number of nodes.
    pub fn len(&self) -> (n: usize)
        ensures
            n == self.nodes.len(),
    {
        self.nodes.len()
    }

    /// Looks among the children of node `i` for the one named `name`. Returns
    /// whether there is one, and the position at which it stands or would
    /// have to stand.
    pub fn locate_child(&self, i: usize, name: &[char]) -> (r: (bool, usize))
        requires
            self.wf(),
            i < self.nodes.len(),
        ensures
            r.1 <= self.nodes[i as int].children.len(),
            r.0 ==> r.1 < self.nodes[i as int].children.len() && self.name(
                self.child(i as int, r.1 as int),
            ) == name@,
            !r.0 ==> forall|k: int|
                0 <= k < self.nodes[i as int].children.len() ==> self.name(
                    #[trigger] self.child(i as int, k),
                ) != name@,
            forall|k: int|
                0 <= k < r.1 ==> precedes(self.name(#[trigger] self.child(i as int, k)), name@),
            !r.0 ==> forall|k: int|
                r.1 <= k < self.nodes[i as int].children.len() ==> precedes(
                    name@,
                    self.name(#[trigger] self.child(i as int, k)),
                ),
    {
        let node = &self.nodes[i];
        let mut k: usize = 0;
        while k < node.children.len()
            invariant
                self.wf(),
                i < self.nodes.len(),
                node == &self.nodes[i as int],
                k <= node.children.len(),
                forall|j: int|
                    0 <= j < k ==> precedes(self.name(#[trigger] self.child(i as int, j)), name@),
            decreases node.children.len() - k,
        {
            let c = node.children[k];
            assert(self.hangs_below(self.child(i as int, k as int), i as int));
            let segs = &self.nodes[c].segments;
            let own = &segs[segs.len() - 1];
            assert(own@ == self.name(c as int));
            match rank(own.as_slice(), name) {
                Rank::Before => {},
                Rank::Same => {
                    return (true, k);
                },
                Rank::After => {
                    proof {
                        assert forall|j: int|
                            0 <= j < node.children.len() implies self.name(
                            #[trigger] self.child(i as int, j),
                        ) != name@ && (k <= j ==> precedes(name@, self.name(self.child(i as int, j))))
                        by {
                            let other = self.name(self.child(i as int, j));
                            if j < k {
                                lemma_precedes_asymmetric(other, name@);
                            } else {
                                if j > k {
                                    assert(precedes(self.name(self.child(i as int, k as int)), other));
                                    lemma_precedes_transitive(name@, own@, other);
                                }
                                lemma_precedes_asymmetric(name@, other);
                            }
                        }
                    }
                    return (false, k);
                },
            }
            k += 1;
        }
        proof {
            assert forall|j: int| 0 <= j < node.children.len() implies self.name(
                #[trigger] self.child(i as int, j),
            ) != name@ by {
                lemma_precedes_asymmetric(self.name(self.child(i as int, j)), name@);
            }
        }
        (false, k)
    }

    /// Finds the node that stands for the directory `dir`.
    pub fn find(&self, dir: &Vec<Vec<char>>) -> (found: Option<usize>)
        requires
            self.wf(),
        ensures
            match found {
                Some(i) => i < self.nodes.len() && self.path(i as int) == table_view(dir@),
                None => !self.has_node(table_view(dir@)),
            },
    {
        let ghost target = table_view(dir@);
        if self.nodes.len() == 0 {
            return None;
        }
        let mut cur: usize = 0;
        let mut depth: usize = 0;
        assert(self.path(0) =~= target.take(0));
        while depth < dir.len()
            invariant
                self.wf(),
                target == table_view(dir@),
                depth <= dir@.len(),
                cur < self.nodes.len(),
                self.path(cur as int) == target.take(depth as int),
            decreases dir@.len() - depth,
        {
            let (found, pos) = self.locate_child(cur, dir[depth].as_slice());
            if !found {
                proof {
                    if self.has_node(target) {
                        let d = choose|d: int|
                            0 <= d < self.nodes.len() && #[trigger] self.path(d) == target;
                        let j = self.lemma_ancestor_exists(d, depth + 1);
                        assert(target.take(depth + 1).drop_last() =~= target.take(depth as int));
                        let k = self.lemma_child_found(cur as int, j);
                        assert(self.name(self.child(cur as int, k)) == dir@[depth as int]@);
                    }
                }
                return None;
            }
            proof {
                let c = self.child(cur as int, pos as int);
                assert(self.hangs_below(c, cur as int));
                assert(self.path(c) =~= target.take(depth + 1)) by {
                    assert(self.path(c) =~= self.path(c).drop_last().push(self.path(c).last()));
                }
            }
            cur = self.nodes[cur].children[pos];
            depth += 1;
        }
        assert(target.take(depth as int) =~= target);
        Some(cur)
    }

    /// Counts the candidates in node `i` and below it, and how many of them
    /// are selected: those directly in the node, and what each child holds.
    pub fn count_node(&self, candidates: &[ScanCandidate], i: usize) -> (counts: (usize, usize))
        requires
            self.indexes(views(candidates@)),
            i < self.nodes.len(),
        ensures
            counts.0 == total_under(views(candidates@), self.path(i as int)),
            counts.1 == selected_under(views(candidates@), self.path(i as int)),
        decreases self.nodes.len() - i,
    {
        let ghost all = views(candidates@);
        let ghost dir = self.path(i as int);
        let node = &self.nodes[i];
        proof {
            assert(self.files(i as int) == indices_in(all, dir));
            lemma_indices_in(all, dir);
            lemma_count_among_indices(all, dir, true);
            self.lemma_count_splits(all, i as int, false);
            self.lemma_count_splits(all, i as int, true);
            lemma_count_bounds(all, dir);
        }
        let mut total: usize = node.files.len();
        let mut selected: usize = 0;
        let mut m: usize = 0;
        while m < node.files.len()
            invariant
                all == views(candidates@),
                node.files@ == indices_in(all, dir),
                m <= node.files@.len(),
                selected <= m,
                selected == count_among(all, node.files@.take(m as int), true),
                forall|j: int|
                    0 <= j < node.files@.len() ==> (#[trigger] indices_in(all, dir)[j] as int)
                        < all.len(),
            decreases node.files@.len() - m,
        {
            let at = node.files[m];
            assert(indices_in(all, dir)[m as int] == at);
            assert(all[at as int] == candidates@[at as int]@);
            assert(node.files@.take(m + 1).drop_last() =~= node.files@.take(m as int));
            if candidates[at].should_delete {
                selected += 1;
            }
            m += 1;
        }
        assert(node.files@.take(m as int) =~= node.files@);
        let mut k: usize = 0;
        while k < node.children.len()
            invariant
                self.indexes(all),
                all == views(candidates@),
                i < self.nodes.len(),
                node == &self.nodes[i as int],
                dir == self.path(i as int),
                k <= node.children.len(),
                total == count_in(all, dir, false) + self.children_count(all, i as int, k as int, false),
                selected == count_in(all, dir, true) + self.children_count(
                    all,
                    i as int,
                    k as int,
                    true,
                ),
                count_under(all, dir, false) == count_in(all, dir, false) + self.children_count(
                    all,
                    i as int,
                    node.children.len() as int,
                    false,
                ),
                count_under(all, dir, true) == count_in(all, dir, true) + self.children_count(
                    all,
                    i as int,
                    node.children.len() as int,
                    true,
                ),
                count_under(all, dir, true) <= count_under(all, dir, false) <= all.len() <= usize::MAX,
            decreases node.children.len() - k,
        {
            let c = node.children[k];
            assert(self.hangs_below(self.child(i as int, k as int), i as int));
            let (below, below_selected) = self.count_node(candidates, c);
            proof {
                let n = node.children.len() as int;
                self.lemma_children_count_monotone(all, i as int, k + 1, n, false);
                self.lemma_children_count_monotone(all, i as int, k + 1, n, true);
            }
            total += below;
            selected += below_selected;
            k += 1;
        }
        (total, selected)
    }

    /// Whether the candidate at position `k` is among the first `files_done`
    /// files of node `i`, or lies in or below one of its first `kids_done`
    /// children.
    pub open spec fn reached(
        &self,
        candidates: Seq<CandidateView>,
        i: int,
        files_done: int,
        kids_done: int,
        k: int,
    ) -> bool {
        ||| exists|m: int| 0 <= m < files_done && #[trigger] self.files(i)[m] as int == k
        ||| exists|c: int|
            0 <= c < kids_done && within(
                directory_of(candidates[k].file_path),
                self.path(#[trigger] self.child(i, c)),
            )
    }

    /// The collection after the candidates that were reached have had their
    /// selection set to `value`.
    pub open spec fn partly_selected(
        &self,
        candidates: Seq<CandidateView>,
        i: int,
        files_done: int,
        kids_done: int,
        value: bool,
    ) -> Seq<CandidateView> {
        Seq::new(
            candidates.len(),
            |k: int|
                if self.reached(candidates, i, files_done, kids_done, k) {
                    CandidateView { should_delete: value, ..candidates[k] }
                } else {
                    candidates[k]
                },
        )
    }

    /// Sets the selection of every candidate in node `i` and below it to
    /// `value`: of those directly in the node, then of what each child holds.
    pub fn set_selection_recursive(&self, candidates: &mut [ScanCandidate], i: usize, value: bool)
        requires
            self.indexes(views(old(candidates)@)),
            i < self.nodes.len(),
        ensures
            views(final(candidates)@) == apply_selection(
                views(old(candidates)@),
                self.path(i as int),
                value,
            ),
        decreases self.nodes.len() - i,
    {
        let ghost before = views(candidates@);
        let ghost dir = self.path(i as int);
        let node = &self.nodes[i];
        proof {
            assert(self.files(i as int) == indices_in(before, dir));
            lemma_indices_in(before, dir);
            assert(views(candidates@) =~= self.partly_selected(before, i as int, 0, 0, value));
        }
        let mut m: usize = 0;
        while m < node.files.len()
            invariant
                i < self.nodes.len(),
                node == &self.nodes[i as int],
                node.files@ == indices_in(before, dir),
                m <= node.files@.len(),
                before.len() == candidates@.len(),
                views(candidates@) == self.partly_selected(before, i as int, m as int, 0, value),
                forall|j: int|
                    0 <= j < node.files@.len() ==> (#[trigger] indices_in(before, dir)[j] as int)
                        < before.len(),
            decreases node.files@.len() - m,
        {
            let at = node.files[m];
            assert(indices_in(before, dir)[m as int] == at);
            let ghost previous = views(candidates@);
            candidates[at].should_delete = value;
            proof {
                let now = views(candidates@);
                let goal = self.partly_selected(before, i as int, m + 1, 0, value);
                assert forall|k: int| 0 <= k < now.len() implies now[k] == goal[k] by {
                    assert(now[k] == candidates@[k]@);
                    assert(previous[k] == self.partly_selected(before, i as int, m as int, 0, value)[k]);
                    if k == at {
                        assert(self.files(i as int)[m as int] as int == k);
                    } else {
                        assert(now[k] == previous[k]);
                    }
                }
                assert(now =~= goal);
            }
            m += 1;
        }
        let mut c: usize = 0;
        while c < node.children.len()
            invariant
                self.indexes(before),
                i < self.nodes.len(),
                node == &self.nodes[i as int],
                dir == self.path(i as int),
                m == node.files@.len(),
                c <= node.children.len(),
                before.len() == candidates@.len(),
                views(candidates@) == self.partly_selected(before, i as int, m as int, c as int, value),
            decreases node.children.len() - c,
        {
            let kid = node.children[c];
            assert(self.hangs_below(self.child(i as int, c as int), i as int));
            let ghost previous = views(candidates@);
            proof {
                assert(same_files(before, previous));
                self.lemma_indexes_same_files(before, previous);
            }
            self.set_selection_recursive(candidates, kid, value);
            proof {
                let now = views(candidates@);
                let goal = self.partly_selected(before, i as int, m as int, c + 1, value);
                assert(now.len() == goal.len());
                assert forall|k: int| 0 <= k < now.len() implies now[k] == goal[k] by {
                    assert(previous[k] == self.partly_selected(
                        before,
                        i as int,
                        m as int,
                        c as int,
                        value,
                    )[k]);
                    if within(directory_of(before[k].file_path), self.path(kid as int)) {
                        assert(within(
                            directory_of(before[k].file_path),
                            self.path(self.child(i as int, c as int)),
                        ));
                    }
                }
                assert(now =~= goal);
            }
            c += 1;
        }
        proof {
            let now = views(candidates@);
            let goal = apply_selection(before, dir, value);
            assert forall|k: int| 0 <= k < now.len() implies now[k] == goal[k] by {
                let own = directory_of(before[k].file_path);
                assert(self.has_node(directory_of(before[k].file_path)));
                self.lemma_children_cover(i as int, own);
                if own == dir {
                    assert(indices_in(before, dir).contains(k as usize));
                    let at = choose|at: int|
                        0 <= at < indices_in(before, dir).len() && indices_in(before, dir)[at]
                            == k as usize;
                    assert(self.files(i as int)[at] as int == k);
                }
                if self.reached(before, i as int, m as int, c as int, k) {
                    if exists|at: int| 0 <= at < m && #[trigger] self.files(i as int)[at] as int == k {
                        let at = choose|at: int|
                            0 <= at < m && #[trigger] self.files(i as int)[at] as int == k;
                        assert(indices_in(before, dir)[at] as int == k);
                    }
                }
            }
            assert(now =~= goal);
        }
    }
}

} // verus!
