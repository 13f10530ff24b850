use pinnaclesort::aggregate::{selection_status, SelectionStatus};
use pinnaclesort::browse::{count_recursive, count_selected, select_all, set_selection};
use pinnaclesort::candidate::ScanCandidate;
use pinnaclesort::path::{display_path, split_path};
use pinnaclesort::rebuild::rebuild_tree;
use pinnaclesort::tree::TreeIndex;

fn candidate(path: &str) -> ScanCandidate {
    let name = path.rsplit('/').next().unwrap_or("").to_string();
    ScanCandidate::new(path.to_string(), name, 30)
}

fn candidates(paths: &[&str]) -> Vec<ScanCandidate> {
    paths.iter().map(|p| candidate(p)).collect()
}

fn sample() -> Vec<ScanCandidate> {
    candidates(&[
        "/Users/ann/Downloads/a.txt",
        "/Users/ann/Downloads/sub/b.txt",
        "/Users/ann/Downloads/sub/deep/c.txt",
        "/Users/ann/Documents/d.txt",
        "/Users/ann/Downloads/e.txt",
        "/data/f.txt",
    ])
}

fn node_paths(tree: &TreeIndex) -> Vec<String> {
    (0..tree.len()).map(|i| tree.node_path(i)).collect()
}

fn children_of(tree: &TreeIndex, path: &str) -> Vec<String> {
    let i = tree.find(&split_path(path)).expect("node");
    tree.nodes[i].children.iter().map(|&c| tree.folder_name(c)).collect()
}

fn files_of(tree: &TreeIndex, path: &str) -> Vec<usize> {
    let i = tree.find(&split_path(path)).expect("node");
    tree.nodes[i].files.clone()
}

fn shape(tree: &TreeIndex) -> Vec<(String, Vec<String>, Vec<usize>)> {
    let mut rows: Vec<(String, Vec<String>, Vec<usize>)> = (0..tree.len())
        .map(|i| {
            (
                tree.node_path(i),
                tree.nodes[i].children.iter().map(|&c| tree.folder_name(c)).collect(),
                tree.nodes[i].files.clone(),
            )
        })
        .collect();
    rows.sort();
    rows
}

#[test]
fn empty_collection_gives_an_empty_tree() {
    let tree = rebuild_tree(&[]);
    assert_eq!(tree.len(), 0);
    assert_eq!(count_recursive(&tree, &[], "/"), (0, 0));
    assert_eq!(tree.find(&split_path("/")), None);
    assert_eq!(tree.root_paths("/Users/ann"), Vec::<String>::new());
}

#[test]
fn every_directory_on_the_way_is_a_node() {
    let list = sample();
    let tree = rebuild_tree(&list);
    let mut paths = node_paths(&tree);
    paths.sort();
    assert_eq!(
        paths,
        vec![
            "/",
            "/Users",
            "/Users/ann",
            "/Users/ann/Documents",
            "/Users/ann/Downloads",
            "/Users/ann/Downloads/sub",
            "/Users/ann/Downloads/sub/deep",
            "/data",
        ]
    );
    assert_eq!(tree.node_path(0), "/");
    assert_eq!(tree.folder_name(0), "/");
}

#[test]
fn nodes_list_their_own_files_by_position() {
    let list = sample();
    let tree = rebuild_tree(&list);
    assert_eq!(files_of(&tree, "/Users/ann/Downloads"), vec![0, 4]);
    assert_eq!(files_of(&tree, "/Users/ann/Downloads/sub"), vec![1]);
    assert_eq!(files_of(&tree, "/Users/ann/Downloads/sub/deep"), vec![2]);
    assert_eq!(files_of(&tree, "/Users/ann/Documents"), vec![3]);
    assert_eq!(files_of(&tree, "/data"), vec![5]);
    assert_eq!(files_of(&tree, "/Users/ann"), Vec::<usize>::new());
    assert_eq!(files_of(&tree, "/"), Vec::<usize>::new());
}

#[test]
fn children_stand_in_order_of_their_names() {
    let list = candidates(&["/r/zeta/1", "/r/alpha/2", "/r/Mid/3", "/r/alpha-b/4", "/r/alpha/5", "/r/b/6"]);
    let tree = rebuild_tree(&list);
    assert_eq!(children_of(&tree, "/r"), vec!["Mid", "alpha", "alpha-b", "b", "zeta"]);
    assert_eq!(children_of(&tree, "/"), vec!["r"]);
    assert_eq!(children_of(&tree, "/r/alpha"), Vec::<String>::new());
}

#[test]
fn parents_stand_before_their_children() {
    let list = sample();
    let tree = rebuild_tree(&list);
    for i in 0..tree.len() {
        for &c in &tree.nodes[i].children {
            assert!(c > i);
            assert_eq!(tree.nodes[c].parent, i);
            let mut up = tree.nodes[c].segments.clone();
            up.pop();
            assert_eq!(display_path(&up), tree.node_path(i));
        }
    }
}

#[test]
fn find_takes_any_spelling_of_a_directory() {
    let list = sample();
    let tree = rebuild_tree(&list);
    let i = tree.find(&split_path("/Users/ann/Downloads")).unwrap();
    assert_eq!(tree.find(&split_path("Users/ann//Downloads/")), Some(i));
    assert_eq!(tree.find(&split_path("/Users/bob")), None);
    assert_eq!(tree.find(&split_path("/Users/ann/Downloads/a.txt")), None);
    assert_eq!(tree.find(&split_path("")), Some(0));
}

#[test]
fn count_is_the_number_of_candidates_under_the_node() {
    let mut list = sample();
    list[1].should_delete = false;
    list[5].should_delete = false;
    let tree = rebuild_tree(&list);
    assert_eq!(count_recursive(&tree, &list, "/"), (6, 4));
    assert_eq!(count_recursive(&tree, &list, "/Users"), (5, 4));
    assert_eq!(count_recursive(&tree, &list, "/Users/ann/Downloads"), (4, 3));
    assert_eq!(count_recursive(&tree, &list, "/Users/ann/Downloads/sub"), (2, 1));
    assert_eq!(count_recursive(&tree, &list, "/Users/ann/Downloads/sub/deep"), (1, 1));
    assert_eq!(count_recursive(&tree, &list, "/Users/ann/Documents"), (1, 1));
    assert_eq!(count_recursive(&tree, &list, "/data"), (1, 0));
    assert_eq!(count_recursive(&tree, &list, "/nowhere"), (0, 0));
    assert_eq!(count_recursive(&tree, &list, "/Users/ann/Down"), (0, 0));
}

#[test]
fn count_agrees_with_a_flat_count_for_every_node() {
    let mut list = candidates(&[
        "/a/1", "/a/b/2", "/a/b/3", "/a/bc/4", "/a/b/c/5", "/x/6", "/7", "/a/b/c/d/e/8", "/a/1b",
    ]);
    for (k, c) in list.iter_mut().enumerate() {
        c.should_delete = k % 3 != 0;
    }
    let tree = rebuild_tree(&list);
    for i in 0..tree.len() {
        let node = tree.node_path(i);
        let under = |c: &&ScanCandidate| {
            let dir = c.file_path.rsplit_once('/').map(|(d, _)| d).unwrap_or("");
            node == "/" || dir == node || dir.starts_with(&format!("{}/", node))
        };
        let total = list.iter().filter(under).count();
        let selected = list.iter().filter(under).filter(|c| c.should_delete).count();
        assert_eq!(tree.count_node(&list, i), (total, selected), "{}", node);
        assert_eq!(count_recursive(&tree, &list, &node), (total, selected), "{}", node);
        assert!(total > 0);
        assert!(selected <= total);
    }
}

#[test]
fn a_sibling_with_a_longer_name_is_not_below() {
    let list = candidates(&["/a/b/1", "/a/bc/2"]);
    let tree = rebuild_tree(&list);
    assert_eq!(count_recursive(&tree, &list, "/a/b"), (1, 1));
    assert_eq!(count_recursive(&tree, &list, "/a/bc"), (1, 1));
    assert_eq!(count_recursive(&tree, &list, "/a"), (2, 2));
}

#[test]
fn selecting_a_node_fills_it_and_its_descendants() {
    let mut list = sample();
    select_all(&mut list, false);
    let tree = rebuild_tree(&list);
    set_selection(&tree, &mut list, "/Users/ann/Downloads", true);
    let flags: Vec<bool> = list.iter().map(|c| c.should_delete).collect();
    assert_eq!(flags, vec![true, true, true, false, true, false]);
    for node in ["/Users/ann/Downloads", "/Users/ann/Downloads/sub", "/Users/ann/Downloads/sub/deep"] {
        let (total, selected) = count_recursive(&tree, &list, node);
        assert_eq!(selected, total);
        assert!(total > 0);
    }
    assert_eq!(count_recursive(&tree, &list, "/Users/ann"), (5, 4));
}

#[test]
fn deselecting_a_node_empties_it_and_its_descendants() {
    let mut list = sample();
    let tree = rebuild_tree(&list);
    set_selection(&tree, &mut list, "/Users/ann/Downloads/sub", false);
    let flags: Vec<bool> = list.iter().map(|c| c.should_delete).collect();
    assert_eq!(flags, vec![true, false, false, true, true, true]);
    assert_eq!(count_recursive(&tree, &list, "/Users/ann/Downloads/sub"), (2, 0));
    assert_eq!(count_recursive(&tree, &list, "/Users/ann/Downloads/sub/deep"), (1, 0));
    assert_eq!(count_recursive(&tree, &list, "/Users/ann/Downloads"), (4, 2));
}

#[test]
fn selection_is_idempotent() {
    let mut once = sample();
    let tree = rebuild_tree(&once);
    set_selection(&tree, &mut once, "/Users/ann/Downloads", false);
    let mut twice = sample();
    set_selection(&tree, &mut twice, "/Users/ann/Downloads", false);
    set_selection(&tree, &mut twice, "/Users/ann/Downloads", false);
    let a: Vec<bool> = once.iter().map(|c| c.should_delete).collect();
    let b: Vec<bool> = twice.iter().map(|c| c.should_delete).collect();
    assert_eq!(a, b);
}

#[test]
fn selection_touches_nothing_but_the_flag() {
    let mut list = sample();
    let tree = rebuild_tree(&list);
    set_selection(&tree, &mut list, "/", false);
    for (got, was) in list.iter().zip(sample().iter()) {
        assert_eq!(got.file_path, was.file_path);
        assert_eq!(got.file_name, was.file_name);
        assert_eq!(got.days_since_access, was.days_since_access);
        assert!(!got.should_delete);
    }
}

#[test]
fn selecting_an_unknown_directory_changes_nothing() {
    let mut list = sample();
    let tree = rebuild_tree(&list);
    set_selection(&tree, &mut list, "/elsewhere", false);
    assert!(list.iter().all(|c| c.should_delete));
}

#[test]
fn select_all_and_count_selected() {
    let mut list = sample();
    assert_eq!(count_selected(&list), 6);
    select_all(&mut list, false);
    assert_eq!(count_selected(&list), 0);
    list[2].should_delete = true;
    assert_eq!(count_selected(&list), 1);
    select_all(&mut list, true);
    assert_eq!(count_selected(&list), 6);
    assert_eq!(count_selected(&[]), 0);
}

#[test]
fn rebuilding_gives_the_same_tree() {
    let list = sample();
    let first = rebuild_tree(&list);
    let second = rebuild_tree(&list);
    assert_eq!(shape(&first), shape(&second));
    assert_eq!(node_paths(&first), node_paths(&second));
}

#[test]
fn the_selection_does_not_change_the_tree() {
    let mut list = sample();
    let before = rebuild_tree(&list);
    select_all(&mut list, false);
    let after = rebuild_tree(&list);
    assert_eq!(shape(&before), shape(&after));
}

#[test]
fn the_order_of_discovery_does_not_change_nodes_or_children() {
    let forward = candidates(&["/r/b/1", "/r/a/2", "/r/a/x/3", "/q/4"]);
    let backward = candidates(&["/q/4", "/r/a/x/3", "/r/a/2", "/r/b/1"]);
    let one = rebuild_tree(&forward);
    let two = rebuild_tree(&backward);
    let strip = |tree: &TreeIndex| -> Vec<(String, Vec<String>)> {
        shape(tree).into_iter().map(|(p, c, _)| (p, c)).collect()
    };
    assert_eq!(strip(&one), strip(&two));
}

#[test]
fn status_follows_from_the_counts() {
    assert_eq!(selection_status(5, 0), SelectionStatus::NoneSelected);
    assert_eq!(selection_status(5, 5), SelectionStatus::AllSelected);
    assert_eq!(selection_status(5, 3), SelectionStatus::Partial);
    assert_eq!(selection_status(1, 1), SelectionStatus::AllSelected);
    assert_eq!(selection_status(0, 0), SelectionStatus::NoneSelected);
}

#[test]
fn roots_collapse_directories_inside_the_home() {
    let list = sample();
    let tree = rebuild_tree(&list);
    assert_eq!(
        tree.root_paths("/Users/ann"),
        vec!["/Users/ann/Documents", "/Users/ann/Downloads", "/data"]
    );
}

#[test]
fn roots_outside_the_home_are_the_directories_themselves() {
    let list = candidates(&["/data/x/1", "/data/2", "/backup/y/z/3"]);
    let tree = rebuild_tree(&list);
    assert_eq!(tree.root_paths("/Users/ann"), vec!["/backup/y/z", "/data", "/data/x"]);
}

#[test]
fn files_directly_in_the_home_have_no_root() {
    let list = candidates(&["/Users/ann/loose.txt", "/Users/ann/Desktop/a/b/1.txt"]);
    let tree = rebuild_tree(&list);
    assert_eq!(tree.root_paths("/Users/ann"), vec!["/Users/ann/Desktop"]);
}

#[test]
fn home_is_matched_as_a_leading_part_of_the_written_path() {
    let list = candidates(&["/Users/annabel/Music/deep/1.mp3"]);
    let tree = rebuild_tree(&list);
    assert_eq!(tree.root_paths("/Users/ann"), vec!["/Users/annabel/Music"]);
    assert_eq!(tree.root_paths("/Users/bob"), vec!["/Users/annabel/Music/deep"]);
}

#[test]
fn file_in_the_root_directory() {
    let list = candidates(&["/top.txt"]);
    let tree = rebuild_tree(&list);
    assert_eq!(node_paths(&tree), vec!["/"]);
    assert_eq!(count_recursive(&tree, &list, "/"), (1, 1));
    assert_eq!(tree.root_paths("/Users/ann"), vec!["/"]);
}

#[test]
fn selection_by_node_position() {
    let mut list = sample();
    let tree = rebuild_tree(&list);
    let node = tree.find_path("/Users/ann/Downloads/sub").unwrap();
    tree.set_selection_recursive(&mut list, node, false);
    let flags: Vec<bool> = list.iter().map(|c| c.should_delete).collect();
    assert_eq!(flags, vec![true, false, false, true, true, true]);
    tree.set_selection_recursive(&mut list, 0, false);
    assert!(list.iter().all(|c| !c.should_delete));
    tree.set_selection_recursive(&mut list, node, true);
    assert_eq!(tree.count_node(&list, node), (2, 2));
    assert_eq!(tree.count_node(&list, 0), (6, 2));
}

#[test]
fn a_child_is_located_by_its_name() {
    let list = candidates(&["/r/b/1", "/r/d/2", "/r/f/3"]);
    let tree = rebuild_tree(&list);
    let r = tree.find_path("/r").unwrap();
    let name = |s: &str| -> Vec<char> { s.chars().collect() };
    assert_eq!(tree.locate_child(r, &name("b")), (true, 0));
    assert_eq!(tree.locate_child(r, &name("d")), (true, 1));
    assert_eq!(tree.locate_child(r, &name("f")), (true, 2));
    assert_eq!(tree.locate_child(r, &name("a")), (false, 0));
    assert_eq!(tree.locate_child(r, &name("c")), (false, 1));
    assert_eq!(tree.locate_child(r, &name("e")), (false, 2));
    assert_eq!(tree.locate_child(r, &name("g")), (false, 3));
    assert_eq!(tree.locate_child(r, &name("")), (false, 0));
}
