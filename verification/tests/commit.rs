use pinnaclesort::candidate::ScanCandidate;
use pinnaclesort::commit::{
    count_outcomes, Commit, CommitAction, CommitError, CommitEvent, CommitMode, CommitResult,
    Outcome, Tally,
};
use pinnaclesort::scanner::DirEntry;
use std::collections::BTreeSet;

const STAMP: u64 = 1_700_000_000;

struct Disk {
    files: BTreeSet<String>,
    stuck: BTreeSet<String>,
    holding_ok: bool,
    asked: Vec<String>,
}

impl Disk {
    fn with(files: &[&str]) -> Disk {
        Disk {
            files: files.iter().map(|f| f.to_string()).collect(),
            stuck: BTreeSet::new(),
            holding_ok: true,
            asked: Vec::new(),
        }
    }

    fn listing(&self, dir: &str) -> Option<Vec<DirEntry>> {
        let prefix = if dir == "/" { "/".to_string() } else { format!("{}/", dir) };
        let entries: Vec<DirEntry> = self
            .files
            .iter()
            .filter(|f| f.starts_with(&prefix) && !f[prefix.len()..].contains('/'))
            .map(|f| DirEntry { name: f[prefix.len()..].to_string(), path: f.clone() })
            .collect();
        if entries.is_empty() {
            None
        } else {
            Some(entries)
        }
    }

    fn perform(&mut self, action: &CommitAction) -> CommitEvent {
        match action {
            CommitAction::PrepareHolding(path) => {
                self.asked.push(format!("prepare {}", path));
                CommitEvent::Prepared(self.holding_ok)
            }
            CommitAction::ListSiblings(dir) => {
                self.asked.push(format!("list {}", dir));
                match self.listing(dir) {
                    Some(entries) => CommitEvent::Listed(entries),
                    None => CommitEvent::Unreadable,
                }
            }
            CommitAction::Probe(path) => {
                self.asked.push(format!("probe {}", path));
                CommitEvent::Exists(self.files.contains(path))
            }
            CommitAction::Delete(path) => {
                self.asked.push(format!("delete {}", path));
                let ok = !self.stuck.contains(path) && self.files.remove(path);
                CommitEvent::Done(ok)
            }
            CommitAction::Move { from, to } => {
                self.asked.push(format!("move {} -> {}", from, to));
                let ok = !self.stuck.contains(from) && !self.files.contains(to) && self.files.remove(from);
                if ok {
                    self.files.insert(to.clone());
                }
                CommitEvent::Done(ok)
            }
            CommitAction::Finished => CommitEvent::Resume,
        }
    }
}

fn candidate(path: &str, selected: bool) -> ScanCandidate {
    let name = path.rsplit('/').next().unwrap().to_string();
    let mut c = ScanCandidate::new(path.to_string(), name, 30);
    c.should_delete = selected;
    c
}

fn candidate_named(path: &str, name: &str) -> ScanCandidate {
    ScanCandidate::new(path.to_string(), name.to_string(), 30)
}

fn run(disk: &mut Disk, list: Vec<ScanCandidate>, mode: CommitMode) -> Result<CommitResult, CommitError> {
    let mut commit = Commit::new(list, mode, STAMP);
    let mut action = commit.step(CommitEvent::Resume);
    let mut steps = 0;
    while !matches!(action, CommitAction::Finished) {
        let event = disk.perform(&action);
        action = commit.step(event);
        steps += 1;
        assert!(steps < 10_000);
    }
    commit.finish()
}

fn holding() -> CommitMode {
    CommitMode::MoveTo("/trash".to_string())
}

#[test]
fn an_executable_takes_its_support_files_along() {
    let mut disk = Disk::with(&["/apps/app.exe", "/apps/app.dll", "/apps/app.ini", "/apps/other.txt", "/apps/readme.md"]);
    let result = run(&mut disk, vec![candidate("/apps/app.exe", true)], holding());
    assert_eq!(result, Ok(CommitResult { moved: 1, associated: 2, failed: 0 }));
    let left: Vec<&str> = disk.files.iter().map(|s| s.as_str()).collect();
    assert_eq!(
        left,
        vec!["/apps/other.txt", "/apps/readme.md", "/trash/app.dll", "/trash/app.exe", "/trash/app.ini"]
    );
    let moves: Vec<&String> = disk.asked.iter().filter(|a| a.starts_with("move")).collect();
    assert_eq!(
        moves,
        vec![
            "move /apps/app.dll -> /trash/app.dll",
            "move /apps/app.ini -> /trash/app.ini",
            "move /apps/app.exe -> /trash/app.exe",
        ]
    );
}

#[test]
fn an_executable_is_deleted_with_its_support_files() {
    let mut disk = Disk::with(&["/apps/app.exe", "/apps/app.dll", "/apps/app.ini", "/apps/notes.txt"]);
    let result = run(&mut disk, vec![candidate("/apps/app.exe", true)], CommitMode::Delete);
    assert_eq!(result, Ok(CommitResult { moved: 1, associated: 2, failed: 0 }));
    let left: Vec<&str> = disk.files.iter().map(|s| s.as_str()).collect();
    assert_eq!(left, vec!["/apps/notes.txt"]);
    assert_eq!(
        disk.asked,
        vec!["list /apps", "delete /apps/app.dll", "delete /apps/app.ini", "delete /apps/app.exe"]
    );
}

#[test]
fn a_name_that_is_taken_gets_the_time_appended() {
    let mut disk = Disk::with(&["/docs/report.txt", "/trash/report.txt"]);
    let result = run(&mut disk, vec![candidate("/docs/report.txt", true)], holding());
    assert_eq!(result, Ok(CommitResult { moved: 1, associated: 0, failed: 0 }));
    let left: Vec<&str> = disk.files.iter().map(|s| s.as_str()).collect();
    assert_eq!(left, vec!["/trash/report.txt", "/trash/report_1700000000.txt"]);
    assert_eq!(
        disk.asked,
        vec![
            "prepare /trash",
            "probe /trash/report.txt",
            "move /docs/report.txt -> /trash/report_1700000000.txt",
        ]
    );
}

#[test]
fn a_name_that_is_free_is_kept() {
    let mut disk = Disk::with(&["/docs/report.txt"]);
    let result = run(&mut disk, vec![candidate("/docs/report.txt", true)], holding());
    assert_eq!(result, Ok(CommitResult { moved: 1, associated: 0, failed: 0 }));
    assert!(disk.files.contains("/trash/report.txt"));
    assert!(!disk.files.contains("/docs/report.txt"));
}

#[test]
fn a_missing_holding_directory_ends_the_commit_before_any_file_is_touched() {
    let mut disk = Disk::with(&["/docs/a.txt", "/docs/b.txt"]);
    disk.holding_ok = false;
    let list = vec![candidate("/docs/a.txt", true), candidate("/docs/b.txt", true)];
    let result = run(&mut disk, list, holding());
    assert_eq!(result, Err(CommitError::HoldingDirectoryUnavailable));
    assert_eq!(disk.asked, vec!["prepare /trash"]);
    assert!(disk.files.contains("/docs/a.txt"));
    assert!(disk.files.contains("/docs/b.txt"));
}

#[test]
fn an_aborted_commit_stays_finished() {
    let mut commit = Commit::new(vec![candidate("/docs/a.txt", true)], holding(), STAMP);
    assert!(matches!(commit.step(CommitEvent::Resume), CommitAction::PrepareHolding(p) if p == "/trash"));
    assert!(matches!(commit.step(CommitEvent::Prepared(false)), CommitAction::Finished));
    assert!(matches!(commit.step(CommitEvent::Resume), CommitAction::Finished));
    assert!(matches!(commit.step(CommitEvent::Prepared(true)), CommitAction::Finished));
    assert_eq!(commit.finish(), Err(CommitError::HoldingDirectoryUnavailable));
}

#[test]
fn an_answer_other_than_ready_fails_the_holding_directory() {
    let mut commit = Commit::new(vec![candidate("/docs/a.txt", true)], holding(), STAMP);
    commit.step(CommitEvent::Resume);
    assert!(matches!(commit.step(CommitEvent::Done(true)), CommitAction::Finished));
    assert_eq!(commit.finish(), Err(CommitError::HoldingDirectoryUnavailable));
}

#[test]
fn deleting_needs_no_holding_directory() {
    let mut disk = Disk::with(&["/docs/a.txt"]);
    disk.holding_ok = false;
    let result = run(&mut disk, vec![candidate("/docs/a.txt", true)], CommitMode::Delete);
    assert_eq!(result, Ok(CommitResult { moved: 1, associated: 0, failed: 0 }));
    assert_eq!(disk.asked, vec!["delete /docs/a.txt"]);
}

#[test]
fn only_selected_candidates_are_removed() {
    let mut disk = Disk::with(&["/d/a", "/d/b", "/d/c"]);
    let list = vec![candidate("/d/a", false), candidate("/d/b", true), candidate("/d/c", false)];
    let result = run(&mut disk, list, CommitMode::Delete);
    assert_eq!(result, Ok(CommitResult { moved: 1, associated: 0, failed: 0 }));
    let left: Vec<&str> = disk.files.iter().map(|s| s.as_str()).collect();
    assert_eq!(left, vec!["/d/a", "/d/c"]);
}

#[test]
fn nothing_selected_means_nothing_asked_not_even_the_holding_directory() {
    let mut disk = Disk::with(&["/d/a"]);
    disk.holding_ok = false;
    let result = run(&mut disk, vec![candidate("/d/a", false)], holding());
    assert_eq!(result, Ok(CommitResult { moved: 0, associated: 0, failed: 0 }));
    assert!(disk.asked.is_empty());
    let mut disk = Disk::with(&[]);
    let result = run(&mut disk, Vec::new(), holding());
    assert_eq!(result, Ok(CommitResult { moved: 0, associated: 0, failed: 0 }));
    assert!(disk.asked.is_empty());
    let result = run(&mut disk, Vec::new(), CommitMode::Delete);
    assert_eq!(result, Ok(CommitResult { moved: 0, associated: 0, failed: 0 }));
    assert!(disk.asked.is_empty());
}

#[test]
fn the_holding_directory_is_asked_for_when_the_first_selected_candidate_is_taken_up() {
    let mut disk = Disk::with(&["/d/a", "/d/b", "/d/c"]);
    let list = vec![candidate("/d/a", false), candidate("/d/b", true), candidate("/d/c", true)];
    let result = run(&mut disk, list, holding());
    assert_eq!(result, Ok(CommitResult { moved: 2, associated: 0, failed: 0 }));
    assert_eq!(
        disk.asked,
        vec![
            "prepare /trash",
            "probe /trash/b",
            "move /d/b -> /trash/b",
            "probe /trash/c",
            "move /d/c -> /trash/c",
        ]
    );
    let mut commit = Commit::new(vec![candidate("/d/a", false), candidate("/d/b", true)], holding(), STAMP);
    assert!(matches!(commit.step(CommitEvent::Resume), CommitAction::PrepareHolding(p) if p == "/trash"));
    assert_eq!(commit.next, 1);
    assert!(!commit.ready);
    assert!(matches!(commit.step(CommitEvent::Prepared(true)), CommitAction::Probe(p) if p == "/trash/b"));
    assert!(commit.ready);
    assert_eq!(commit.next, 2);
}

#[test]
fn an_executable_on_windows_takes_its_support_files_along() {
    let mut commit = Commit::new(
        vec![candidate_named("C:\\Tools\\App.exe", "App.exe")],
        CommitMode::Delete,
        STAMP,
    );
    assert!(matches!(
        commit.step(CommitEvent::Resume),
        CommitAction::ListSiblings(p) if p == "C:\\Tools"
    ));
    let listing = vec![
        DirEntry { name: "App.exe".to_string(), path: "C:\\Tools\\App.exe".to_string() },
        DirEntry { name: "app.dll".to_string(), path: "C:\\Tools\\app.dll".to_string() },
        DirEntry { name: "notes.txt".to_string(), path: "C:\\Tools\\notes.txt".to_string() },
        DirEntry { name: "App.ini".to_string(), path: "C:\\Tools\\App.ini".to_string() },
    ];
    assert!(matches!(
        commit.step(CommitEvent::Listed(listing)),
        CommitAction::Delete(p) if p == "C:\\Tools\\app.dll"
    ));
    assert!(matches!(
        commit.step(CommitEvent::Done(true)),
        CommitAction::Delete(p) if p == "C:\\Tools\\App.ini"
    ));
    assert!(matches!(
        commit.step(CommitEvent::Done(true)),
        CommitAction::Delete(p) if p == "C:\\Tools\\App.exe"
    ));
    assert!(matches!(commit.step(CommitEvent::Done(true)), CommitAction::Finished));
    assert_eq!(commit.finish(), Ok(CommitResult { moved: 1, associated: 2, failed: 0 }));
}

#[test]
fn a_file_that_cannot_be_removed_is_counted_and_the_commit_goes_on() {
    let mut disk = Disk::with(&["/d/a", "/d/b", "/d/c"]);
    disk.stuck.insert("/d/b".to_string());
    let list = vec![candidate("/d/a", true), candidate("/d/b", true), candidate("/d/gone", true), candidate("/d/c", true)];
    let result = run(&mut disk, list, CommitMode::Delete);
    assert_eq!(result, Ok(CommitResult { moved: 2, associated: 0, failed: 2 }));
    let left: Vec<&str> = disk.files.iter().map(|s| s.as_str()).collect();
    assert_eq!(left, vec!["/d/b"]);
}

#[test]
fn a_support_file_that_cannot_be_removed_counts_as_failed() {
    let mut disk = Disk::with(&["/apps/tool.exe", "/apps/tool.dll", "/apps/tool.cfg"]);
    disk.stuck.insert("/apps/tool.dll".to_string());
    let result = run(&mut disk, vec![candidate("/apps/tool.exe", true)], CommitMode::Delete);
    assert_eq!(result, Ok(CommitResult { moved: 1, associated: 1, failed: 1 }));
}

#[test]
fn support_files_are_matched_by_stem_and_ending_without_case() {
    let mut disk = Disk::with(&[
        "/p/Game.EXE",
        "/p/game.dll",
        "/p/GAME_data.DAT",
        "/p/game.config",
        "/p/game.cfg",
        "/p/game.txt",
        "/p/gamer.ini",
        "/p/other.dll",
        "/p/agame.dll",
    ]);
    let result = run(&mut disk, vec![candidate("/p/Game.EXE", true)], CommitMode::Delete);
    assert_eq!(result, Ok(CommitResult { moved: 1, associated: 5, failed: 0 }));
    let left: Vec<&str> = disk.files.iter().map(|s| s.as_str()).collect();
    assert_eq!(left, vec!["/p/agame.dll", "/p/game.txt", "/p/other.dll"]);
}

#[test]
fn an_executable_whose_directory_cannot_be_read_goes_alone() {
    let mut commit = Commit::new(vec![candidate("/apps/app.exe", true)], CommitMode::Delete, STAMP);
    assert!(matches!(commit.step(CommitEvent::Resume), CommitAction::ListSiblings(p) if p == "/apps"));
    assert!(matches!(commit.step(CommitEvent::Unreadable), CommitAction::Delete(p) if p == "/apps/app.exe"));
    assert!(matches!(commit.step(CommitEvent::Done(true)), CommitAction::Finished));
    assert_eq!(commit.finish(), Ok(CommitResult { moved: 1, associated: 0, failed: 0 }));
}

#[test]
fn an_executable_without_a_directory_in_its_path_goes_alone() {
    let mut commit = Commit::new(vec![candidate("app.exe", true)], CommitMode::Delete, STAMP);
    assert!(matches!(commit.step(CommitEvent::Resume), CommitAction::Delete(p) if p == "app.exe"));
}

#[test]
fn a_taken_support_file_name_is_stamped_too() {
    let mut disk = Disk::with(&["/apps/app.exe", "/apps/app.dll", "/trash/app.dll"]);
    let result = run(&mut disk, vec![candidate("/apps/app.exe", true)], holding());
    assert_eq!(result, Ok(CommitResult { moved: 1, associated: 1, failed: 0 }));
    assert!(disk.files.contains("/trash/app_1700000000.dll"));
    assert!(disk.files.contains("/trash/app.dll"));
    assert!(disk.files.contains("/trash/app.exe"));
}

#[test]
fn a_missing_answer_counts_as_a_failure() {
    let mut commit = Commit::new(vec![candidate("/d/a", true), candidate("/d/b", true)], holding(), STAMP);
    commit.step(CommitEvent::Resume);
    assert!(matches!(commit.step(CommitEvent::Prepared(true)), CommitAction::Probe(p) if p == "/trash/a"));
    assert!(matches!(commit.step(CommitEvent::Resume), CommitAction::Probe(p) if p == "/trash/b"));
    assert!(matches!(
        commit.step(CommitEvent::Exists(false)),
        CommitAction::Move { from, to } if from == "/d/b" && to == "/trash/b"
    ));
    assert!(matches!(commit.step(CommitEvent::Unreadable), CommitAction::Finished));
    assert_eq!(commit.finish(), Ok(CommitResult { moved: 0, associated: 0, failed: 2 }));
}

#[test]
fn outcomes_are_counted_by_kind() {
    let done = vec![
        Outcome { path: "a".to_string(), primary: true, succeeded: true },
        Outcome { path: "b".to_string(), primary: false, succeeded: true },
        Outcome { path: "c".to_string(), primary: false, succeeded: false },
        Outcome { path: "d".to_string(), primary: true, succeeded: false },
        Outcome { path: "e".to_string(), primary: false, succeeded: true },
    ];
    assert_eq!(count_outcomes(&done, Tally::Moved), 1);
    assert_eq!(count_outcomes(&done, Tally::Associated), 2);
    assert_eq!(count_outcomes(&done, Tally::Failed), 2);
    assert_eq!(count_outcomes(&Vec::new(), Tally::Failed), 0);
}
