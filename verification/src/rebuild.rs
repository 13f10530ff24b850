//! Building the directory tree from the flat candidate collection.

use vstd::prelude::*;
use crate::aggregate::{
    indices_in, lemma_indices_in_empty, lemma_total_monotone, lemma_total_positive, total_under,
};
use crate::candidate::{views, CandidateView, ScanCandidate};
use crate::path::{all_segments, copy_segments, directory_of, is_segment, split_path, within};
use crate::text::{lemma_precedes_asymmetric, precedes, table_view};
use crate::tree::{TreeIndex, TreeNode};

verus! {

impl TreeIndex {
    /// The tree `self` has grown out of `before` on the way to the directory
    /// `target`: the nodes of `before` stand where they stood, for the same
    /// directories and with the same files; every node behind them stands for
    /// a directory on the way to `target` and lists no file.
    pub open spec fn grown_from(&self, before: TreeIndex, target: Seq<Seq<char>>) -> bool {
        &&& before.nodes.len() <= self.nodes.len()
        &&& forall|i: int|
            0 <= i < before.nodes.len() ==> #[trigger] self.path(i) == before.path(i)
        &&& forall|i: int|
            0 <= i < before.nodes.len() ==> #[trigger] self.files(i) == before.files(i)
        &&& forall|i: int|
            before.nodes.len() <= i < self.nodes.len() ==> #[trigger] self.files(i)
                == Seq::<usize>::empty()
        &&& forall|i: int|
            before.nodes.len() <= i < self.nodes.len() ==> within(target, #[trigger] self.path(i))
    }

    /// `self` is `before` with one more node, named `name`, hung below node
    /// `cur` as its child at position `pos`.
    pub open spec fn with_child(
        &self,
        before: TreeIndex,
        cur: int,
        pos: int,
        name: Seq<char>,
    ) -> bool {
        let id = before.nodes.len() as int;
        &&& self.nodes.len() == id + 1
        &&& 0 <= cur < id
        &&& 0 <= pos <= before.nodes[cur].children.len()
        &&& forall|i: int| 0 <= i < id && i != cur ==> #[trigger] self.nodes[i] == before.nodes[i]
        &&& self.nodes[cur].segments == before.nodes[cur].segments
        &&& self.nodes[cur].parent == before.nodes[cur].parent
        &&& self.nodes[cur].files == before.nodes[cur].files
        &&& self.nodes[cur].children@ == before.nodes[cur].children@.insert(pos, id as usize)
        &&& self.path(id) == before.path(cur).push(name)
        &&& self.nodes[id].parent == cur
        &&& self.nodes[id].children@ == Seq::<usize>::empty()
        &&& self.nodes[id].files@ == Seq::<usize>::empty()
    }

    /// Hanging a new child into its place among its siblings keeps the tree
    /// well formed.
    pub proof fn lemma_with_child(&self, before: TreeIndex, cur: int, pos: int, name: Seq<char>)
        requires
            before.wf(),
            before.nodes.len() < usize::MAX,
            self.with_child(before, cur, pos, name),
            is_segment(name),
            forall|k: int|
                0 <= k < pos ==> precedes(before.name(#[trigger] before.child(cur, k)), name),
            forall|k: int|
                pos <= k < before.nodes[cur].children.len() ==> precedes(
                    name,
                    before.name(#[trigger] before.child(cur, k)),
                ),
        ensures
            self.wf(),
    {
        let id = before.nodes.len() as int;
        let kids = before.nodes[cur].children@;
        assert forall|i: int| 0 <= i < id implies #[trigger] self.path(i) == before.path(i) by {}
        assert forall|i: int| 0 <= i < self.nodes.len() implies all_segments(
            #[trigger] self.path(i),
        ) by {
            if i == id {
                assert forall|k: int| 0 <= k < self.path(id).len() implies is_segment(
                    #[trigger] self.path(id)[k],
                ) by {
                    if k < before.path(cur).len() {
                        assert(self.path(id)[k] == before.path(cur)[k]);
                    }
                }
            } else {
                assert(all_segments(before.path(i)));
            }
        }
        // Where each child entry of the new tree comes from.
        assert forall|i: int, k: int|
            0 <= i < self.nodes.len() && 0 <= k < self.nodes[i].children.len()
            implies self.hangs_below(#[trigger] self.child(i, k), i) by {
            if i == cur {
                if k < pos {
                    assert(self.child(i, k) == before.child(cur, k));
                    assert(before.hangs_below(before.child(cur, k), cur));
                } else if k > pos {
                    assert(self.child(i, k) == before.child(cur, k - 1));
                    assert(before.hangs_below(before.child(cur, k - 1), cur));
                } else {
                    assert(self.child(i, k) == id);
                    assert(self.path(id).drop_last() =~= before.path(cur));
                }
            } else {
                assert(i != id);
                assert(self.child(i, k) == before.child(i, k));
                assert(before.hangs_below(before.child(i, k), i));
            }
        }
        assert forall|i: int, k1: int, k2: int|
            0 <= i < self.nodes.len() && 0 <= k1 < k2 < self.nodes[i].children.len()
            implies precedes(
            self.name(#[trigger] self.child(i, k1)),
            self.name(#[trigger] self.child(i, k2)),
        ) by {
            if i == cur {
                let b1 = if k1 < pos { k1 } else { k1 - 1 };
                let b2 = if k2 < pos { k2 } else { k2 - 1 };
                if k1 != pos {
                    assert(self.child(i, k1) == before.child(cur, b1));
                    assert(before.hangs_below(before.child(cur, b1), cur));
                }
                if k2 != pos {
                    assert(self.child(i, k2) == before.child(cur, b2));
                    assert(before.hangs_below(before.child(cur, b2), cur));
                }
                if k1 == pos {
                    assert(self.name(id) == name);
                } else if k2 == pos {
                    assert(self.name(id) == name);
                } else {
                    assert(b1 < b2);
                    assert(precedes(
                        before.name(before.child(cur, b1)),
                        before.name(before.child(cur, b2)),
                    ));
                }
            } else {
                assert(self.child(i, k1) == before.child(i, k1));
                assert(self.child(i, k2) == before.child(i, k2));
                assert(before.hangs_below(before.child(i, k1), i));
                assert(before.hangs_below(before.child(i, k2), i));
                assert(precedes(
                    before.name(before.child(i, k1)),
                    before.name(before.child(i, k2)),
                ));
            }
        }
        assert forall|j: int| 0 < j < self.nodes.len() implies #[trigger] self.listed(j) by {
            if j == id {
                assert(self.child(cur, pos) == id);
            } else {
                assert(before.listed(j));
                let p = before.nodes[j].parent as int;
                let k = choose|k: int|
                    0 <= k < before.nodes[p].children.len() && #[trigger] before.child(p, k) == j;
                if p == cur {
                    let k2 = if k < pos { k } else { k + 1 };
                    assert(self.child(p, k2) == j);
                } else {
                    assert(self.child(p, k) == j);
                }
            }
        }
        assert forall|i: int, j: int| 0 <= i < j < self.nodes.len() implies #[trigger] self.path(i)
            != #[trigger] self.path(j) by {
            if j == id && self.path(i) == self.path(id) {
                assert(before.path(i).drop_last() =~= before.path(cur));
                let k = before.lemma_child_found(cur, i);
                assert(before.name(before.child(cur, k)) == name);
                if k < pos {
                    lemma_precedes_asymmetric(before.name(before.child(cur, k)), name);
                } else {
                    lemma_precedes_asymmetric(name, before.name(before.child(cur, k)));
                }
            }
        }
    }

    /// A tree without nodes: the index of no candidates.
    pub fn new() -> (tree: TreeIndex)
        ensures
            tree.nodes@.len() == 0,
            tree.indexes(Seq::<CandidateView>::empty()),
    {
        TreeIndex { nodes: Vec::new() }
    }

    /// Enters the candidate at `position`, which lies directly in `dir`:
    /// walks from the root to `dir`, adds the nodes that are missing on the
    /// way, and lists the position in the node of `dir`.
    fn insert(&mut self, dir: &Vec<Vec<char>>, position: usize, Ghost(all): Ghost<Seq<CandidateView>>)
        requires
            old(self).indexes(all.take(position as int)),
            position < all.len() <= usize::MAX,
            table_view(dir@) == directory_of(all[position as int].file_path),
            all_segments(table_view(dir@)),
        ensures
            final(self).indexes(all.take(position + 1)),
    {
        let ghost before = *self;
        let ghost target = table_view(dir@);
        let ghost earlier = all.take(position as int);
        if self.nodes.len() == 0 {
            self.nodes.push(
                TreeNode {
                    segments: Vec::new(),
                    parent: 0,
                    children: Vec::new(),
                    files: Vec::new(),
                },
            );
            assert(self.path(0) =~= Seq::<Seq<char>>::empty());
            assert(self.path(0) =~= target.take(0));
            assert(self.wf());
            assert(self.grown_from(before, target));
        }
        let mut cur: usize = 0;
        let mut depth: usize = 0;
        assert(self.path(0) =~= target.take(0));
        while depth < dir.len()
            invariant
                self.wf(),
                self.grown_from(before, target),
                target == table_view(dir@),
                all_segments(target),
                depth <= dir@.len(),
                cur < self.nodes.len(),
                self.path(cur as int) == target.take(depth as int),
            decreases dir@.len() - depth,
        {
            let (found, pos) = self.locate_child(cur, dir[depth].as_slice());
            if found {
                proof {
                    let c = self.child(cur as int, pos as int);
                    assert(self.hangs_below(c, cur as int));
                    assert(self.path(c) =~= target.take(depth + 1)) by {
                        assert(self.path(c) =~= self.path(c).drop_last().push(self.path(c).last()));
                    }
                }
                cur = self.nodes[cur].children[pos];
            } else {
                let ghost previous = *self;
                let segs = copy_segments(dir, depth + 1);
                self.nodes.push(
                    TreeNode { segments: segs, parent: cur, children: Vec::new(), files: Vec::new() },
                );
                let id = self.nodes.len() - 1;
                self.nodes[cur].children.insert(pos, id);
                proof {
                    let name = dir@[depth as int]@;
                    assert(name == target[depth as int]);
                    assert(target.take(depth + 1) =~= target.take(depth as int).push(name));
                    assert(self.with_child(previous, cur as int, pos as int, name));
                    self.lemma_with_child(previous, cur as int, pos as int, name);
                    assert forall|i: int| 0 <= i < previous.nodes.len() implies #[trigger] self.path(
                        i,
                    ) == previous.path(i) && self.files(i) == previous.files(i) by {}
                    assert(self.grown_from(before, target)) by {
                        assert forall|i: int| 0 <= i < before.nodes.len() implies #[trigger] self.path(
                            i,
                        ) == before.path(i) by {
                            assert(self.path(i) == previous.path(i));
                        }
                        assert forall|i: int| 0 <= i < before.nodes.len() implies #[trigger] self.files(
                            i,
                        ) == before.files(i) by {
                            assert(self.files(i) == previous.files(i));
                        }
                        assert forall|i: int|
                            before.nodes.len() <= i < self.nodes.len() implies #[trigger] self.files(
                            i,
                        ) == Seq::<usize>::empty() by {
                            if i < previous.nodes.len() {
                                assert(self.files(i) == previous.files(i));
                            }
                        }
                        assert forall|i: int|
                            before.nodes.len() <= i < self.nodes.len() implies within(
                            target,
                            #[trigger] self.path(i),
                        ) by {
                            if i < previous.nodes.len() {
                                assert(self.path(i) == previous.path(i));
                            }
                        }
                    }
                }
                cur = id;
            }
            depth += 1;
        }
        assert(target.take(depth as int) =~= target);
        let ghost walked = *self;
        self.nodes[cur].files.push(position);
        proof {
            let now = all.take(position + 1);
            assert(now.drop_last() =~= earlier);
            assert(now.last() == all[position as int]);
            assert forall|i: int| 0 <= i < self.nodes.len() implies #[trigger] self.path(i)
                == walked.path(i) by {}
            assert(self.wf()) by {
                assert forall|i: int| 0 <= i < self.nodes.len() implies all_segments(
                    #[trigger] self.path(i),
                ) by {
                    assert(all_segments(walked.path(i)));
                }
                assert forall|i: int, k: int|
                    0 <= i < self.nodes.len() && 0 <= k < self.nodes[i].children.len()
                    implies self.hangs_below(#[trigger] self.child(i, k), i) by {
                    assert(self.child(i, k) == walked.child(i, k));
                    assert(walked.hangs_below(walked.child(i, k), i));
                }
                assert forall|i: int, k1: int, k2: int|
                    0 <= i < self.nodes.len() && 0 <= k1 < k2 < self.nodes[i].children.len()
                    implies precedes(
                    self.name(#[trigger] self.child(i, k1)),
                    self.name(#[trigger] self.child(i, k2)),
                ) by {
                    assert(self.child(i, k1) == walked.child(i, k1));
                    assert(self.child(i, k2) == walked.child(i, k2));
                    assert(walked.hangs_below(walked.child(i, k1), i));
                    assert(walked.hangs_below(walked.child(i, k2), i));
                    assert(precedes(
                        walked.name(walked.child(i, k1)),
                        walked.name(walked.child(i, k2)),
                    ));
                }
                assert forall|j: int| 0 < j < self.nodes.len() implies #[trigger] self.listed(j) by {
                    assert(walked.listed(j));
                    let p = walked.nodes[j].parent as int;
                    let k = choose|k: int|
                        0 <= k < walked.nodes[p].children.len() && #[trigger] walked.child(p, k)
                            == j;
                    assert(self.child(p, k) == j);
                }
            }
            // Directories that had no node before held no candidate before.
            assert forall|i: int| before.nodes.len() <= i < self.nodes.len() implies indices_in(
                earlier,
                #[trigger] self.path(i),
            ) == Seq::<usize>::empty() by {
                assert forall|k: int| 0 <= k < earlier.len() implies directory_of(
                    #[trigger] earlier[k].file_path,
                ) != self.path(i) by {
                    assert(before.has_node(directory_of(earlier[k].file_path)));
                    let d = choose|d: int|
                        0 <= d < before.nodes.len() && #[trigger] before.path(d) == directory_of(
                            earlier[k].file_path,
                        );
                    assert(walked.path(d) == before.path(d));
                    assert(self.path(d) != self.path(i));
                }
                lemma_indices_in_empty(earlier, self.path(i));
            }
            assert forall|i: int| 0 <= i < self.nodes.len() implies #[trigger] self.files(i)
                == indices_in(now, self.path(i)) by {
                if i != cur {
                    assert(self.files(i) == walked.files(i));
                    assert(self.path(i) != self.path(cur as int));
                    if i < before.nodes.len() {
                        assert(walked.files(i) == before.files(i));
                        assert(before.files(i) == indices_in(earlier, before.path(i)));
                    }
                } else {
                    assert(self.files(i) == walked.files(i).push(position));
                    if i < before.nodes.len() {
                        assert(walked.files(i) == before.files(i));
                        assert(before.files(i) == indices_in(earlier, before.path(i)));
                    }
                }
            }
            assert forall|k: int| 0 <= k < now.len() implies self.has_node(
                directory_of(#[trigger] now[k].file_path),
            ) by {
                if k < position {
                    assert(now[k] == earlier[k]);
                    assert(before.has_node(directory_of(earlier[k].file_path)));
                    let d = choose|d: int|
                        0 <= d < before.nodes.len() && #[trigger] before.path(d) == directory_of(
                            earlier[k].file_path,
                        );
                    assert(self.path(d) == before.path(d));
                } else {
                    assert(self.path(cur as int) == target);
                }
            }
            assert forall|i: int| 0 <= i < self.nodes.len() implies total_under(
                now,
                #[trigger] self.path(i),
            ) > 0 by {
                if i < before.nodes.len() {
                    assert(self.path(i) == before.path(i));
                    assert(total_under(earlier, before.path(i)) > 0);
                    lemma_total_monotone(now, position as int, self.path(i));
                } else {
                    assert(within(target, walked.path(i)));
                    lemma_total_positive(now, position as int, self.path(i));
                }
            }
        }
    }
}

/// Builds the directory tree over `candidates`: a node for every directory
/// on the way from the root to a candidate, each with its children in order
/// of their names and with the positions of the candidates directly in it.
pub fn rebuild_tree(candidates: &[ScanCandidate]) -> (tree: TreeIndex)
    ensures
        tree.indexes(views(candidates@)),
{
    let ghost all = views(candidates@);
    let mut tree = TreeIndex::new();
    let mut k: usize = 0;
    assert(all.take(0) =~= Seq::<CandidateView>::empty());
    while k < candidates.len()
        invariant
            all == views(candidates@),
            k <= candidates@.len(),
            tree.indexes(all.take(k as int)),
        decreases candidates@.len() - k,
    {
        let mut dir = split_path(candidates[k].file_path.as_str());
        if dir.len() > 0 {
            let ghost whole = table_view(dir@);
            dir.pop();
            assert(table_view(dir@) =~= whole.drop_last());
            assert forall|j: int| 0 <= j < table_view(dir@).len() implies is_segment(
                #[trigger] table_view(dir@)[j],
            ) by {
                assert(table_view(dir@)[j] == whole[j]);
            }
        }
        assert(all[k as int] == candidates@[k as int]@);
        tree.insert(&dir, k, Ghost(all));
        k += 1;
    }
    assert(all.take(k as int) =~= all);
    tree
}

} // verus!
