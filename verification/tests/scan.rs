use pinnaclesort::candidate::ScanCandidate;
use pinnaclesort::classifier::SECONDS_PER_DAY;
use pinnaclesort::scanner::{Awaiting, DirEntry, ScanAction, ScanEvent, Scanner};
use std::collections::BTreeMap;

const NOW: u64 = 2_000_000_000;
const TWO_WEEKS: u64 = 14 * SECONDS_PER_DAY;

enum Item {
    Dir(Vec<&'static str>),
    Locked,
    File(Option<u64>),
}

struct Disk {
    items: BTreeMap<String, Item>,
}

impl Disk {
    fn new() -> Disk {
        Disk { items: BTreeMap::new() }
    }

    fn dir(mut self, path: &str, names: &[&'static str]) -> Disk {
        self.items.insert(path.to_string(), Item::Dir(names.to_vec()));
        self
    }

    fn locked(mut self, path: &str) -> Disk {
        self.items.insert(path.to_string(), Item::Locked);
        self
    }

    fn file(mut self, path: &str, days_ago: u64) -> Disk {
        self.items.insert(path.to_string(), Item::File(Some(NOW - days_ago * SECONDS_PER_DAY)));
        self
    }

    fn file_without_time(mut self, path: &str) -> Disk {
        self.items.insert(path.to_string(), Item::File(None));
        self
    }

    fn answer(&self, action: &ScanAction) -> ScanEvent {
        match action {
            ScanAction::ListDirectory(path) => match self.items.get(path) {
                Some(Item::Dir(names)) => ScanEvent::Listed(
                    names
                        .iter()
                        .map(|n| DirEntry { name: n.to_string(), path: format!("{}/{}", path, n) })
                        .collect(),
                ),
                _ => ScanEvent::Unreadable,
            },
            ScanAction::QueryKind(path) => {
                ScanEvent::Kind(matches!(self.items.get(path), Some(Item::Dir(_)) | Some(Item::Locked)))
            }
            ScanAction::QueryAccessTime(path) => match self.items.get(path) {
                Some(Item::File(time)) => ScanEvent::AccessTime(*time),
                _ => ScanEvent::AccessTime(None),
            },
            ScanAction::Finished => ScanEvent::Resume,
        }
    }
}

fn show(action: &ScanAction) -> String {
    match action {
        ScanAction::ListDirectory(p) => format!("list {}", p),
        ScanAction::QueryKind(p) => format!("kind {}", p),
        ScanAction::QueryAccessTime(p) => format!("time {}", p),
        ScanAction::Finished => "finished".to_string(),
    }
}

fn run(disk: &Disk, roots: &[&str], threshold: u64, smart: bool) -> (Vec<ScanCandidate>, Vec<String>) {
    let mut scanner =
        Scanner::new(threshold, smart, roots.iter().map(|r| r.to_string()).collect(), NOW);
    let mut asked = Vec::new();
    let mut action = scanner.step(ScanEvent::Resume);
    let mut steps = 0;
    while !matches!(action, ScanAction::Finished) {
        asked.push(show(&action));
        let event = disk.answer(&action);
        action = scanner.step(event);
        steps += 1;
        assert!(steps < 10_000);
    }
    (scanner.into_results(), asked)
}

fn paths(found: &[ScanCandidate]) -> Vec<String> {
    found.iter().map(|c| c.file_path.clone()).collect()
}

#[test]
fn old_file_is_found_and_recent_file_is_not() {
    let disk = Disk::new()
        .dir("A", &["old.txt", "B"])
        .dir("A/B", &["recent.txt"])
        .file("A/old.txt", 40)
        .file("A/B/recent.txt", 2);
    let (found, _) = run(&disk, &["A"], TWO_WEEKS, false);
    assert_eq!(found.len(), 1);
    assert_eq!(found[0].file_path, "A/old.txt");
    assert_eq!(found[0].file_name, "old.txt");
    assert!(found[0].should_delete);
    assert_eq!(found[0].days_since_access, 40);
}

#[test]
fn smart_filter_leaves_out_an_old_cache_file() {
    let disk = Disk::new().dir("A", &["cache.tmp", "keep.txt"]).file("A/cache.tmp", 100).file("A/keep.txt", 100);
    let (found, asked) = run(&disk, &["A"], TWO_WEEKS, true);
    assert_eq!(paths(&found), vec!["A/keep.txt"]);
    assert!(!asked.contains(&"time A/cache.tmp".to_string()));
    let (found, _) = run(&disk, &["A"], TWO_WEEKS, false);
    assert_eq!(paths(&found), vec!["A/cache.tmp", "A/keep.txt"]);
}

#[test]
fn hidden_entries_are_neither_reported_nor_entered() {
    let disk = Disk::new()
        .dir("A", &[".secret", ".old.txt", "seen.txt", "sub"])
        .dir("A/.secret", &["inside.txt"])
        .dir("A/sub", &[".git", "x.txt"])
        .dir("A/sub/.git", &["config"])
        .file("A/.secret/inside.txt", 400)
        .file("A/.old.txt", 400)
        .file("A/seen.txt", 400)
        .file("A/sub/.git/config", 400)
        .file("A/sub/x.txt", 400);
    let (found, asked) = run(&disk, &["A"], TWO_WEEKS, false);
    assert_eq!(paths(&found), vec!["A/seen.txt", "A/sub/x.txt"]);
    for request in &asked {
        assert!(!request.contains("/."), "{}", request);
    }
    assert_eq!(
        asked,
        vec![
            "list A",
            "kind A/seen.txt",
            "time A/seen.txt",
            "kind A/sub",
            "list A/sub",
            "kind A/sub/x.txt",
            "time A/sub/x.txt",
        ]
    );
}

#[test]
fn a_hidden_directory_given_as_root_is_searched() {
    let disk = Disk::new().dir("/home/u/.cache", &["big.bin"]).file("/home/u/.cache/big.bin", 90);
    let (found, _) = run(&disk, &["/home/u/.cache"], TWO_WEEKS, false);
    assert_eq!(paths(&found), vec!["/home/u/.cache/big.bin"]);
}

#[test]
fn the_boundary_of_the_threshold_is_not_stale() {
    let mut disk = Disk::new().dir("A", &["edge", "past", "before"]);
    disk.items.insert("A/edge".to_string(), Item::File(Some(NOW - TWO_WEEKS)));
    disk.items.insert("A/past".to_string(), Item::File(Some(NOW - TWO_WEEKS - 1)));
    disk.items.insert("A/before".to_string(), Item::File(Some(NOW - TWO_WEEKS + 1)));
    let (found, _) = run(&disk, &["A"], TWO_WEEKS, false);
    assert_eq!(paths(&found), vec!["A/past"]);
    assert_eq!(found[0].days_since_access, 14);
}

#[test]
fn the_walk_is_depth_first_in_listing_order() {
    let disk = Disk::new()
        .dir("R", &["b.txt", "d1", "a.txt", "d2"])
        .dir("R/d1", &["y.txt", "deep", "x.txt"])
        .dir("R/d1/deep", &["z.txt"])
        .dir("R/d2", &["w.txt"])
        .file("R/b.txt", 50)
        .file("R/a.txt", 50)
        .file("R/d1/y.txt", 50)
        .file("R/d1/x.txt", 50)
        .file("R/d1/deep/z.txt", 50)
        .file("R/d2/w.txt", 50);
    let (found, _) = run(&disk, &["R"], TWO_WEEKS, false);
    assert_eq!(
        paths(&found),
        vec!["R/b.txt", "R/d1/y.txt", "R/d1/deep/z.txt", "R/d1/x.txt", "R/a.txt", "R/d2/w.txt"]
    );
}

#[test]
fn roots_are_searched_in_their_order_and_each_on_its_own() {
    let disk = Disk::new()
        .dir("two", &["b"])
        .dir("one", &["a"])
        .file("two/b", 20)
        .file("one/a", 20);
    let (found, asked) = run(&disk, &["one", "missing", "two"], TWO_WEEKS, false);
    assert_eq!(paths(&found), vec!["one/a", "two/b"]);
    assert_eq!(asked[0], "list one");
    assert!(asked.contains(&"list missing".to_string()));
}

#[test]
fn an_unreadable_directory_is_skipped_and_the_scan_goes_on() {
    let disk = Disk::new()
        .dir("A", &["locked", "after.txt"])
        .locked("A/locked")
        .file("A/after.txt", 30);
    let (found, asked) = run(&disk, &["A"], TWO_WEEKS, false);
    assert_eq!(paths(&found), vec!["A/after.txt"]);
    assert!(asked.contains(&"list A/locked".to_string()));
}

#[test]
fn a_file_without_access_time_is_skipped() {
    let disk = Disk::new()
        .dir("A", &["unknown", "known"])
        .file_without_time("A/unknown")
        .file("A/known", 30);
    let (found, _) = run(&disk, &["A"], TWO_WEEKS, false);
    assert_eq!(paths(&found), vec!["A/known"]);
}

#[test]
fn an_access_time_in_the_future_is_not_stale() {
    let mut disk = Disk::new().dir("A", &["ahead"]);
    disk.items.insert("A/ahead".to_string(), Item::File(Some(NOW + 5)));
    let (found, _) = run(&disk, &["A"], TWO_WEEKS, false);
    assert!(found.is_empty());
}

#[test]
fn no_roots_means_no_requests() {
    let disk = Disk::new();
    let (found, asked) = run(&disk, &[], TWO_WEEKS, true);
    assert!(found.is_empty());
    assert!(asked.is_empty());
}

#[test]
fn directories_are_entered_whatever_the_smart_filter_says_of_their_names() {
    let disk = Disk::new()
        .dir("A", &["build"])
        .dir("A/build", &["notes.txt"])
        .file("A/build/notes.txt", 60);
    let (found, _) = run(&disk, &["A"], TWO_WEEKS, true);
    assert_eq!(paths(&found), vec!["A/build/notes.txt"]);
}

#[test]
fn an_answer_that_was_not_asked_for_drops_the_entry() {
    let mut scanner = Scanner::new(TWO_WEEKS, false, vec!["A".to_string()], NOW);
    assert!(matches!(scanner.step(ScanEvent::Resume), ScanAction::ListDirectory(p) if p == "A"));
    let listing = vec![
        DirEntry { name: "f".to_string(), path: "A/f".to_string() },
        DirEntry { name: "g".to_string(), path: "A/g".to_string() },
    ];
    assert!(matches!(scanner.step(ScanEvent::Listed(listing)), ScanAction::QueryKind(p) if p == "A/f"));
    assert!(matches!(scanner.step(ScanEvent::Unreadable), ScanAction::QueryKind(p) if p == "A/g"));
    assert!(matches!(scanner.step(ScanEvent::Kind(false)), ScanAction::QueryAccessTime(p) if p == "A/g"));
    assert!(matches!(scanner.step(ScanEvent::Kind(false)), ScanAction::Finished));
    assert!(matches!(scanner.awaiting, Awaiting::Nothing));
    assert!(matches!(scanner.step(ScanEvent::AccessTime(Some(0))), ScanAction::Finished));
    assert!(scanner.into_results().is_empty());
}

#[test]
fn every_result_is_at_least_as_old_as_the_threshold_in_days() {
    let disk = Disk::new()
        .dir("A", &["a", "b", "c", "d"])
        .file("A/a", 13)
        .file("A/b", 14)
        .file("A/c", 15)
        .file("A/d", 365);
    let (found, _) = run(&disk, &["A"], TWO_WEEKS, false);
    assert_eq!(paths(&found), vec!["A/c", "A/d"]);
    for c in &found {
        assert!(c.days_since_access >= 14);
        assert!(c.should_delete);
    }
    assert_eq!(found[1].days_since_access, 365);
}

#[test]
fn a_file_under_two_roots_is_recorded_once() {
    let disk = Disk::new()
        .dir("/a", &["b", "top.txt"])
        .dir("/a/b", &["deep.txt"])
        .file("/a/top.txt", 30)
        .file("/a/b/deep.txt", 30);
    let (found, asked) = run(&disk, &["/a", "/a/b"], TWO_WEEKS, false);
    assert_eq!(paths(&found), vec!["/a/b/deep.txt", "/a/top.txt"]);
    assert_eq!(asked.iter().filter(|a| *a == "list /a/b").count(), 2);
    let (found, _) = run(&disk, &["/a/b", "/a"], TWO_WEEKS, false);
    assert_eq!(paths(&found), vec!["/a/b/deep.txt", "/a/top.txt"]);
}

#[test]
fn a_root_that_is_searched_twice_adds_nothing() {
    let disk = Disk::new().dir("/a", &["x", "y"]).file("/a/x", 20).file("/a/y", 20);
    let (found, _) = run(&disk, &["/a", "/a"], TWO_WEEKS, false);
    assert_eq!(paths(&found), vec!["/a/x", "/a/y"]);
}

#[test]
fn an_entry_that_is_listed_twice_is_recorded_once() {
    let disk = Disk::new().dir("/a", &["x", "y", "x"]).file("/a/x", 20).file("/a/y", 25);
    let (found, _) = run(&disk, &["/a"], TWO_WEEKS, false);
    assert_eq!(paths(&found), vec!["/a/x", "/a/y"]);
    assert_eq!(found[0].days_since_access, 20);
}

#[test]
fn no_two_results_have_the_same_path() {
    let disk = Disk::new()
        .dir("/r", &["s", "f", "s"])
        .dir("/r/s", &["f", "g", "f"])
        .file("/r/f", 40)
        .file("/r/s/f", 40)
        .file("/r/s/g", 40);
    let (found, _) = run(&disk, &["/r", "/r/s", "/r"], TWO_WEEKS, false);
    let mut all = paths(&found);
    assert_eq!(all, vec!["/r/s/f", "/r/s/g", "/r/f"]);
    all.sort();
    all.dedup();
    assert_eq!(all.len(), found.len());
}
