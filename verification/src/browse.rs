//! What a presentation layer asks of the tree: counts and bulk selection by
//! directory path, the top-level folders to show, and how a node is written.

use vstd::prelude::*;
use crate::aggregate::{apply_selection, lemma_count_bounds, selected_under, total_under};
use crate::candidate::{views, CandidateView, ScanCandidate};
use crate::path::{
    copy_segments, directory_of, display, display_chars, display_path, lemma_display_round_trip,
    lies_under, root, segments, split_path,
};
use crate::text::{
    chars_of, insert_ascending, is_prefix, starts_with, string_from_chars, strictly_ascending,
    strings_view, table_view,
};
use crate::tree::TreeIndex;

verus! {

/// How many segments a top-level folder inside the home directory has: the
/// home directory itself takes two, the folder in it the third.
pub const ROOT_DEPTH: usize = 3;

/// The top-level folder under which the directory `dir` is shown: a directory
/// inside the home directory `home` is collapsed to its first `ROOT_DEPTH`
/// segments, and is not shown where it has fewer; any other directory is
/// shown as it is.
pub open spec fn root_of(dir: Seq<Seq<char>>, home: Seq<char>) -> Option<Seq<Seq<char>>> {
    if !is_prefix(home, display(dir)) {
        Some(dir)
    } else if dir.len() >= ROOT_DEPTH {
        Some(dir.take(ROOT_DEPTH as int))
    } else {
        None
    }
}

impl TreeIndex {
    /// Node `i` holds files directly, and they are shown under the top-level
    /// folder that is written `shown`.
    pub open spec fn shows(&self, home: Seq<char>, i: int, shown: Seq<char>) -> bool {
        &&& self.files(i).len() > 0
        &&& root_of(self.path(i), home) matches Some(top)
        &&& display(top) == shown
    }

    /// `shown` is the list of top-level folders for the home directory
    /// `home`: each folder under which some node with files is shown, once,
    /// in lexicographic order.
    pub open spec fn lists_roots(&self, home: Seq<char>, shown: Seq<Seq<char>>) -> bool {
        &&& strictly_ascending(shown)
        &&& forall|x: Seq<char>|
            shown.contains(x) <==> exists|i: int|
                0 <= i < self.nodes.len() && #[trigger] self.shows(home, i, x)
    }

    /// How node `i` is written: its directory as a path.
    pub fn node_path(&self, i: usize) -> (s: String)
        requires
            i < self.nodes.len(),
        ensures
            s@ == display(self.path(i as int)),
    {
        display_path(&self.nodes[i].segments)
    }

    /// The name under which node `i` is shown: the last segment of its
    /// directory, or `/` for the root.
    pub fn folder_name(&self, i: usize) -> (s: String)
        requires
            i < self.nodes.len(),
        ensures
            s@ == if self.path(i as int).len() > 0 {
                self.name(i as int)
            } else {
                display(root())
            },
    {
        let segs = &self.nodes[i].segments;
        if segs.len() > 0 {
            string_from_chars(segs[segs.len() - 1].as_slice())
        } else {
            display_path(segs)
        }
    }

    /// A node is found again under the path as which it is written.
    pub proof fn lemma_node_path_found(&self, i: int)
        requires
            self.wf(),
            0 <= i < self.nodes.len(),
        ensures
            segments(display(self.path(i))) == self.path(i),
    {
        lemma_display_round_trip(self.path(i));
    }

    /// A top-level folder that is shown is a node of the tree, and is found
    /// under the path as which it is shown.
    pub proof fn lemma_roots_are_nodes(&self, home: Seq<char>, i: int, shown: Seq<char>)
        requires
            self.wf(),
            0 <= i < self.nodes.len(),
            self.shows(home, i, shown),
        ensures
            self.has_node(segments(shown)),
            display(segments(shown)) == shown,
    {
        let top = root_of(self.path(i), home)->0;
        let depth = top.len() as int;
        assert(top == self.path(i).take(depth)) by {
            assert(self.path(i).take(self.path(i).len() as int) =~= self.path(i));
        }
        let a = self.lemma_ancestor_exists(i, depth);
        self.lemma_node_path_found(a);
    }

    /// Finds the node of the directory that is written `path`.
    pub fn find_path(&self, path: &str) -> (found: Option<usize>)
        requires
            self.wf(),
        ensures
            match found {
                Some(i) => i < self.nodes.len() && self.path(i as int) == segments(path@),
                None => !self.has_node(segments(path@)),
            },
    {
        let dir = split_path(path);
        self.find(&dir)
    }

    /// The top-level folders to show, for the home directory `home`.
    pub fn root_paths(&self, home: &str) -> (shown: Vec<String>)
        ensures
            self.lists_roots(home@, strings_view(shown@)),
    {
        let home_chars = chars_of(home);
        let mut found: Vec<Vec<char>> = Vec::new();
        let mut i: usize = 0;
        while i < self.nodes.len()
            invariant
                i <= self.nodes.len(),
                home_chars@ == home@,
                strictly_ascending(table_view(found@)),
                forall|x: Seq<char>|
                    table_view(found@).contains(x) <==> exists|j: int|
                        0 <= j < i && #[trigger] self.shows(home@, j, x),
            decreases self.nodes.len() - i,
        {
            let node = &self.nodes[i];
            let ghost before = table_view(found@);
            let ghost dir = self.path(i as int);
            if node.files.len() > 0 {
                let written = display_chars(&node.segments);
                if !starts_with(written.as_slice(), home_chars.as_slice()) {
                    insert_ascending(&mut found, written);
                    assert(self.shows(home@, i as int, display(dir)));
                } else if node.segments.len() >= ROOT_DEPTH {
                    let top = copy_segments(&node.segments, ROOT_DEPTH);
                    insert_ascending(&mut found, display_chars(&top));
                    assert(self.shows(home@, i as int, display(dir.take(ROOT_DEPTH as int))));
                }
            }
            proof {
                let after = table_view(found@);
                assert forall|x: Seq<char>| after.contains(x) <==> exists|j: int|
                    0 <= j < i + 1 && #[trigger] self.shows(home@, j, x) by {
                    if after.contains(x) {
                        if before.contains(x) {
                            let j = choose|j: int| 0 <= j < i && #[trigger] self.shows(home@, j, x);
                            assert(self.shows(home@, j, x));
                        } else {
                            assert(self.shows(home@, i as int, x));
                        }
                    }
                    if exists|j: int| 0 <= j < i + 1 && #[trigger] self.shows(home@, j, x) {
                        let j = choose|j: int| 0 <= j < i + 1 && #[trigger] self.shows(home@, j, x);
                        if j < i {
                            assert(before.contains(x));
                        }
                    }
                }
            }
            i += 1;
        }
        let mut shown: Vec<String> = Vec::new();
        let mut k: usize = 0;
        while k < found.len()
            invariant
                k <= found@.len(),
                strings_view(shown@) == table_view(found@).take(k as int),
            decreases found@.len() - k,
        {
            let ghost before = strings_view(shown@);
            shown.push(string_from_chars(found[k].as_slice()));
            assert(strings_view(shown@) =~= before.push(found@[k as int]@));
            assert(table_view(found@).take(k + 1) =~= table_view(found@).take(k as int).push(
                found@[k as int]@,
            ));
            k += 1;
        }
        assert(table_view(found@).take(k as int) =~= table_view(found@));
        shown
    }
}

/// Counts the candidates in the directory `node_path` and below it, and how
/// many of them are selected.
pub fn count_recursive(tree: &TreeIndex, candidates: &[ScanCandidate], node_path: &str) -> (counts:
    (usize, usize))
    requires
        tree.indexes(views(candidates@)),
    ensures
        counts.0 == total_under(views(candidates@), segments(node_path@)),
        counts.1 == selected_under(views(candidates@), segments(node_path@)),
        counts.1 <= counts.0 <= candidates@.len(),
{
    let dir = split_path(node_path);
    proof {
        lemma_count_bounds(views(candidates@), segments(node_path@));
    }
    match tree.find(&dir) {
        Some(i) => tree.count_node(candidates, i),
        None => {
            proof {
                tree.lemma_no_node_no_candidates(views(candidates@), segments(node_path@));
            }
            (0, 0)
        },
    }
}

/// Sets the selection of every candidate in the directory `node_path` and
/// below it to `value`. The tree stays the index of the collection.
pub fn set_selection(
    tree: &TreeIndex,
    candidates: &mut [ScanCandidate],
    node_path: &str,
    value: bool,
)
    requires
        tree.indexes(views(old(candidates)@)),
    ensures
        views(final(candidates)@) == apply_selection(
            views(old(candidates)@),
            segments(node_path@),
            value,
        ),
        tree.indexes(views(final(candidates)@)),
{
    let ghost before = views(candidates@);
    let dir = split_path(node_path);
    match tree.find(&dir) {
        Some(i) => {
            tree.set_selection_recursive(candidates, i, value);
        },
        None => {
            proof {
                tree.lemma_no_node_no_candidates(before, segments(node_path@));
                assert(before =~= apply_selection(before, segments(node_path@), value));
            }
        },
    }
    proof {
        tree.lemma_indexes_same_files(before, views(candidates@));
    }
}

/// Sets the selection of every candidate to `value`.
pub fn select_all(candidates: &mut [ScanCandidate], value: bool)
    ensures
        views(final(candidates)@) == apply_selection(views(old(candidates)@), root(), value),
{
    let ghost before = views(candidates@);
    let n: usize = candidates.len();
    let mut k: usize = 0;
    while k < n
        invariant
            k <= n == candidates@.len() == before.len(),
            forall|j: int|
                0 <= j < k ==> (#[trigger] candidates@[j])@ == (CandidateView {
                    should_delete: value,
                    ..before[j]
                }),
            forall|j: int| k <= j < n ==> (#[trigger] candidates@[j])@ == before[j],
        decreases n - k,
    {
        candidates[k].should_delete = value;
        k += 1;
    }
    proof {
        let goal = apply_selection(before, root(), value);
        let now = views(candidates@);
        assert forall|j: int| 0 <= j < now.len() implies now[j] == goal[j] by {
            assert(lies_under(before[j].file_path, root())) by {
                assert(directory_of(before[j].file_path).take(0) =~= root());
            }
            assert(now[j] == candidates@[j]@);
        }
        assert(now =~= goal);
    }
}

/// How many candidates of the collection are selected.
pub fn count_selected(candidates: &[ScanCandidate]) -> (n: usize)
    ensures
        n == selected_under(views(candidates@), root()),
        n <= candidates@.len(),
{
    let ghost all = views(candidates@);
    let mut n: usize = 0;
    let mut k: usize = 0;
    while k < candidates.len()
        invariant
            all == views(candidates@),
            k <= candidates@.len(),
            n <= k,
            n == selected_under(all.take(k as int), root()),
        decreases candidates@.len() - k,
    {
        proof {
            let upto = all.take(k + 1);
            assert(upto.drop_last() =~= all.take(k as int));
            assert(upto.last() == candidates@[k as int]@);
            assert(lies_under(upto.last().file_path, root())) by {
                assert(directory_of(upto.last().file_path).take(0) =~= root());
            }
        }
        if candidates[k].should_delete {
            n += 1;
        }
        k += 1;
    }
    assert(all.take(k as int) =~= all);
    n
}

} // verus!
