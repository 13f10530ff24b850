use pinnaclesort::candidate::ScanCandidate;
use pinnaclesort::session::ScanSession;

fn session(paths: &[&str]) -> ScanSession {
    ScanSession::new(
        paths
            .iter()
            .map(|p| {
                let name = p.rsplit('/').next().unwrap_or("").to_string();
                ScanCandidate::new(p.to_string(), name, 21)
            })
            .collect(),
    )
}

fn flags(session: &ScanSession) -> Vec<bool> {
    session.candidates().iter().map(|c| c.should_delete).collect()
}

#[test]
fn a_session_keeps_the_candidates_in_their_order() {
    let s = session(&["/a/1", "/b/2", "/a/3"]);
    let paths: Vec<&str> = s.candidates().iter().map(|c| c.file_path.as_str()).collect();
    assert_eq!(paths, vec!["/a/1", "/b/2", "/a/3"]);
    assert_eq!(s.selected_count(), 3);
    assert_eq!(s.count("/"), (3, 3));
    assert_eq!(s.count("/a"), (2, 2));
    assert_eq!(s.tree().len(), 3);
}

#[test]
fn an_empty_session_counts_nothing() {
    let s = session(&[]);
    assert_eq!(s.selected_count(), 0);
    assert_eq!(s.count("/"), (0, 0));
    assert_eq!(s.count_node(0), None);
    assert!(s.into_candidates().is_empty());
}

#[test]
fn session_selection_by_path() {
    let s = session(&["/a/1", "/a/b/2", "/c/3"]).with_selection("/a", false);
    assert_eq!(flags(&s), vec![false, false, true]);
    assert_eq!(s.count("/a"), (2, 0));
    assert_eq!(s.count("/"), (3, 1));
    let s = s.with_selection("/a/b", true);
    assert_eq!(flags(&s), vec![false, true, true]);
    let s = s.with_selection("/unknown", false);
    assert_eq!(flags(&s), vec![false, true, true]);
}

#[test]
fn session_selection_by_node() {
    let s = session(&["/a/1", "/a/b/2", "/c/3"]);
    let node = s.tree().find_path("/a/b").unwrap();
    assert_eq!(s.count_node(node), Some((1, 1)));
    let s = s.with_node_selection(node, false);
    assert_eq!(flags(&s), vec![true, false, true]);
    assert_eq!(s.count_node(node), Some((1, 0)));
    let s = s.with_node_selection(0, false);
    assert_eq!(flags(&s), vec![false, false, false]);
    let s = s.with_node_selection(99, true);
    assert_eq!(flags(&s), vec![false, false, false]);
    assert_eq!(s.count_node(99), None);
}

#[test]
fn session_selection_of_one_candidate_and_of_all() {
    let s = session(&["/a/1", "/a/2", "/a/3"]).with_selected(1, false);
    assert_eq!(flags(&s), vec![true, false, true]);
    assert_eq!(s.selected_count(), 2);
    let s = s.with_selected(3, false);
    assert_eq!(flags(&s), vec![true, false, true]);
    let s = s.with_all(false);
    assert_eq!(s.selected_count(), 0);
    let s = s.with_all(true);
    assert_eq!(s.selected_count(), 3);
    assert_eq!(s.into_candidates().len(), 3);
}

#[test]
fn a_node_is_found_under_the_path_as_which_it_is_written() {
    let s = session(&["/Users/ann/My Files/x/1", "/Users/ann/2", "/3"]);
    let tree = s.tree();
    for node in 0..tree.len() {
        assert_eq!(tree.find_path(&tree.node_path(node)), Some(node));
    }
}
