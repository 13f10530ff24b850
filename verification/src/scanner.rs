//! The scan as a state machine.
//!
//! The scanner decides; its driver reads the file system. Each step takes the
//! answer to what was asked last and returns what to do next: list a
//! directory, tell whether an entry is a directory, read when a file was last
//! accessed, or stop. The walk is depth first: the entries of a directory are
//! taken in the order of its listing, and a directory among them is listed
//! before the entries behind it are looked at. The path is the key of a
//! result: a file that the walk reaches a second time is not recorded again.

use vstd::prelude::*;
use crate::candidate::{
    distinct_paths, has_path, holds_path, views, CandidateView, ScanCandidate,
};
use crate::classifier::{
    days_since_access, is_excluded, is_excluded_name, is_hidden, is_hidden_name, is_stale,
    is_stale_at, lemma_stale_days, whole_days, SECONDS_PER_DAY,
};
use crate::text::strings_view;

verus! {

/// One entry of a directory, as its listing gave it.
#[derive(Debug)]
pub struct DirEntry {
    /// The name of the entry within its directory.
    pub name: String,
    /// The path of the entry.
    pub path: String,
}

/// An entry as plain values.
pub ghost struct EntryView {
    pub name: Seq<char>,
    pub path: Seq<char>,
}

impl View for DirEntry {
    type V = EntryView;

    open spec fn view(&self) -> EntryView {
        EntryView { name: self.name@, path: self.path@ }
    }
}

/// A listing as plain values.
pub open spec fn entries_view(entries: Seq<DirEntry>) -> Seq<EntryView> {
    Seq::new(entries.len(), |k: int| entries[k]@)
}

/// Work that waits on the stack of the scanner.
#[derive(Debug)]
pub enum Pending {
    /// A directory that the scan was asked to search.
    Root(String),
    /// A directory that was found during the scan.
    Directory(DirEntry),
    /// An entry of a listing that has not been looked at.
    Entry(DirEntry),
}

pub ghost enum PendingView {
    Root(Seq<char>),
    Directory(EntryView),
    Entry(EntryView),
}

impl View for Pending {
    type V = PendingView;

    open spec fn view(&self) -> PendingView {
        match self {
            Pending::Root(path) => PendingView::Root(path@),
            Pending::Directory(entry) => PendingView::Directory(entry@),
            Pending::Entry(entry) => PendingView::Entry(entry@),
        }
    }
}

/// The stack as plain values.
pub open spec fn stack_view(stack: Seq<Pending>) -> Seq<PendingView> {
    Seq::new(stack.len(), |k: int| stack[k]@)
}

/// What the scanner has asked its driver and waits to hear.
#[derive(Debug)]
pub enum Awaiting {
    Nothing,
    /// The listing of a directory.
    Listing,
    /// Whether the entry is a directory.
    Kind(DirEntry),
    /// When the file was last accessed.
    AccessTime(DirEntry),
}

pub ghost enum AwaitingView {
    Nothing,
    Listing,
    Kind(EntryView),
    AccessTime(EntryView),
}

impl View for Awaiting {
    type V = AwaitingView;

    open spec fn view(&self) -> AwaitingView {
        match self {
            Awaiting::Nothing => AwaitingView::Nothing,
            Awaiting::Listing => AwaitingView::Listing,
            Awaiting::Kind(entry) => AwaitingView::Kind(entry@),
            Awaiting::AccessTime(entry) => AwaitingView::AccessTime(entry@),
        }
    }
}

/// What the driver reports to the scanner.
#[derive(Debug)]
pub enum ScanEvent {
    /// Nothing was asked: the scan begins, or goes on.
    Resume,
    /// The directory was read; these are its entries.
    Listed(Vec<DirEntry>),
    /// The directory could not be read.
    Unreadable,
    /// Whether the entry is a directory.
    Kind(bool),
    /// When the file was last accessed, in seconds since the epoch; nothing
    /// where that could not be read.
    AccessTime(Option<u64>),
}

pub ghost enum EventView {
    Resume,
    Listed(Seq<EntryView>),
    Unreadable,
    Kind(bool),
    AccessTime(Option<u64>),
}

impl View for ScanEvent {
    type V = EventView;

    open spec fn view(&self) -> EventView {
        match self {
            ScanEvent::Resume => EventView::Resume,
            ScanEvent::Listed(entries) => EventView::Listed(entries_view(entries@)),
            ScanEvent::Unreadable => EventView::Unreadable,
            ScanEvent::Kind(directory) => EventView::Kind(*directory),
            ScanEvent::AccessTime(time) => EventView::AccessTime(*time),
        }
    }
}

/// What the scanner asks its driver to do next.
#[derive(Debug)]
pub enum ScanAction {
    /// Read the directory at this path and report its entries.
    ListDirectory(String),
    /// Report whether the entry at this path is a directory.
    QueryKind(String),
    /// Report when the file at this path was last accessed.
    QueryAccessTime(String),
    /// The scan is over.
    Finished,
}

pub ghost enum ActionView {
    ListDirectory(Seq<char>),
    QueryKind(Seq<char>),
    QueryAccessTime(Seq<char>),
    Finished,
}

impl View for ScanAction {
    type V = ActionView;

    open spec fn view(&self) -> ActionView {
        match self {
            ScanAction::ListDirectory(path) => ActionView::ListDirectory(path@),
            ScanAction::QueryKind(path) => ActionView::QueryKind(path@),
            ScanAction::QueryAccessTime(path) => ActionView::QueryAccessTime(path@),
            ScanAction::Finished => ActionView::Finished,
        }
    }
}

/// A scan in progress.
pub struct Scanner {
    /// The age, in seconds, beyond which a file is stale.
    pub threshold: u64,
    pub smart_filter: bool,
    /// The time of the scan, in seconds since the epoch.
    pub now: u64,
    /// The work that waits; the last item is taken first.
    pub stack: Vec<Pending>,
    pub awaiting: Awaiting,
    /// The stale files found so far, in the order in which they were found.
    pub results: Vec<ScanCandidate>,
}

/// A scan in progress as plain values.
pub ghost struct ScanState {
    pub threshold: u64,
    pub smart_filter: bool,
    pub now: u64,
    pub stack: Seq<PendingView>,
    pub awaiting: AwaitingView,
    pub results: Seq<CandidateView>,
}

impl View for Scanner {
    type V = ScanState;

    open spec fn view(&self) -> ScanState {
        ScanState {
            threshold: self.threshold,
            smart_filter: self.smart_filter,
            now: self.now,
            stack: stack_view(self.stack@),
            awaiting: self.awaiting@,
            results: views(self.results@),
        }
    }
}

/// The entries of a listing as they are put on the stack: the first entry
/// last, so that it is taken first.
pub open spec fn stacked(entries: Seq<EntryView>) -> Seq<PendingView> {
    Seq::new(entries.len(), |k: int| PendingView::Entry(entries[entries.len() - 1 - k]))
}

/// The directories to search as they are put on the stack: the first one
/// last, so that it is searched first.
pub open spec fn stacked_roots(directories: Seq<Seq<char>>) -> Seq<PendingView> {
    Seq::new(
        directories.len(),
        |k: int| PendingView::Root(directories[directories.len() - 1 - k]),
    )
}

/// The record of a stale file.
pub open spec fn found(entry: EntryView, last_access: u64, now: u64) -> CandidateView {
    CandidateView {
        file_path: entry.path,
        file_name: entry.name,
        should_delete: true,
        days_since_access: whole_days(last_access as int, now as int) as u64,
    }
}

impl ScanState {
    /// The state after the answer `event` has been taken in. A listing puts
    /// its entries on the stack. An entry that is a directory is put on the
    /// stack to be listed; one that is a file is dropped where its name is
    /// excluded, and is asked for its access time otherwise. A file whose
    /// access time makes it stale is recorded, unless a file of the same
    /// path is on record already: a file that is reached twice, through a
    /// directory that lies inside another one that is searched, is recorded
    /// once. An answer that is missing, or is not the one that was asked
    /// for, drops what was asked about.
    pub open spec fn absorb(self, event: EventView) -> ScanState {
        let idle = ScanState { awaiting: AwaitingView::Nothing, ..self };
        match (self.awaiting, event) {
            (AwaitingView::Listing, EventView::Listed(entries)) => ScanState {
                stack: self.stack + stacked(entries),
                ..idle
            },
            (AwaitingView::Kind(entry), EventView::Kind(directory)) => if directory {
                ScanState { stack: self.stack.push(PendingView::Directory(entry)), ..idle }
            } else if is_excluded_name(entry.name, self.smart_filter) {
                idle
            } else {
                ScanState { awaiting: AwaitingView::AccessTime(entry), ..self }
            },
            (AwaitingView::AccessTime(entry), EventView::AccessTime(Some(last_access))) => if is_stale_at(
                last_access as int,
                self.now as int,
                self.threshold as int,
            ) && !has_path(self.results, entry.path) {
                ScanState { results: self.results.push(found(entry, last_access, self.now)), ..idle }
            } else {
                idle
            },
            _ => idle,
        }
    }

    /// The state and the request after the scanner has gone on as far as it
    /// can without its driver: a file that waits for its access time is asked
    /// for it; else the stack is taken down, hidden entries are dropped, and
    /// the first directory or visible entry is asked about; with nothing left
    /// the scan is over.
    pub open spec fn advance(self) -> (ScanState, ActionView)
        decreases self.stack.len(),
    {
        if let AwaitingView::AccessTime(entry) = self.awaiting {
            (self, ActionView::QueryAccessTime(entry.path))
        } else if self.stack.len() == 0 {
            (self, ActionView::Finished)
        } else {
            let rest = self.stack.drop_last();
            match self.stack.last() {
                PendingView::Root(path) => (
                    ScanState { stack: rest, awaiting: AwaitingView::Listing, ..self },
                    ActionView::ListDirectory(path),
                ),
                PendingView::Directory(entry) => (
                    ScanState { stack: rest, awaiting: AwaitingView::Listing, ..self },
                    ActionView::ListDirectory(entry.path),
                ),
                PendingView::Entry(entry) => if is_hidden_name(entry.name) {
                    (ScanState { stack: rest, ..self }).advance()
                } else {
                    (
                        ScanState { stack: rest, awaiting: AwaitingView::Kind(entry), ..self },
                        ActionView::QueryKind(entry.path),
                    )
                },
            }
        }
    }

    /// One step of the scan: the answer is taken in, then the scan goes on to
    /// its next request.
    pub open spec fn step(self, event: EventView) -> (ScanState, ActionView) {
        self.absorb(event).advance()
    }

    /// A file with this record may stand among the results: its name is
    /// neither hidden nor excluded, it is selected, and it went without
    /// access for at least the whole days of the threshold.
    pub open spec fn reportable(self, candidate: CandidateView) -> bool {
        &&& !is_hidden_name(candidate.file_name)
        &&& !is_excluded_name(candidate.file_name, self.smart_filter)
        &&& candidate.should_delete
        &&& candidate.days_since_access >= self.threshold / SECONDS_PER_DAY
    }

    /// What holds of every state of a scan: each result is reportable, and
    /// no two results have the same path; no directory with a hidden name
    /// waits to be listed; no entry with a hidden name is being asked about,
    /// and no file with an excluded name is being asked for its access time.
    pub open spec fn inv(self) -> bool {
        &&& forall|k: int| 0 <= k < self.results.len() ==> self.reportable(#[trigger] self.results[k])
        &&& distinct_paths(self.results)
        &&& forall|k: int|
            0 <= k < self.stack.len() ==> (#[trigger] self.stack[k] matches PendingView::Directory(
                entry,
            ) ==> !is_hidden_name(entry.name))
        &&& self.awaiting matches AwaitingView::Kind(entry) ==> !is_hidden_name(entry.name)
        &&& self.awaiting matches AwaitingView::AccessTime(entry) ==> !is_excluded_name(
            entry.name,
            self.smart_filter,
        )
    }

    /// Going on keeps what holds of every state.
    pub proof fn lemma_advance_keeps_inv(self)
        requires
            self.inv(),
        ensures
            self.advance().0.inv(),
        decreases self.stack.len(),
    {
        if self.awaiting is AccessTime {
        } else if self.stack.len() > 0 {
            let rest = self.stack.drop_last();
            assert forall|k: int| 0 <= k < rest.len() implies (#[trigger] rest[k] matches PendingView::Directory(
                entry,
            ) ==> !is_hidden_name(entry.name)) by {
                assert(rest[k] == self.stack[k]);
            }
            if let PendingView::Entry(entry) = self.stack.last() {
                if is_hidden_name(entry.name) {
                    (ScanState { stack: rest, ..self }).lemma_advance_keeps_inv();
                }
            }
        }
    }

    /// Hidden files and directories never reach the results and are never
    /// descended into, and no excluded file is reported: a step keeps what
    /// holds of every state, whatever the driver answers.
    pub proof fn lemma_step_keeps_inv(self, event: EventView)
        requires
            self.inv(),
        ensures
            self.step(event).0.inv(),
    {
        self.lemma_absorb_keeps_inv(event);
        self.absorb(event).lemma_advance_keeps_inv();
    }

    /// Taking an answer in keeps what holds of every state.
    pub proof fn lemma_absorb_keeps_inv(self, event: EventView)
        requires
            self.inv(),
        ensures
            self.absorb(event).inv(),
    {
        let taken = self.absorb(event);
        assert(taken.inv()) by {
            match (self.awaiting, event) {
                (AwaitingView::Listing, EventView::Listed(entries)) => {
                    assert forall|k: int| 0 <= k < taken.stack.len() implies (#[trigger] taken.stack[k] matches PendingView::Directory(
                        entry,
                    ) ==> !is_hidden_name(entry.name)) by {
                        if k < self.stack.len() {
                            assert(taken.stack[k] == self.stack[k]);
                        }
                    }
                },
                (AwaitingView::Kind(entry), EventView::Kind(directory)) => {
                    if directory {
                        assert forall|k: int| 0 <= k < taken.stack.len() implies (#[trigger] taken.stack[k] matches PendingView::Directory(
                            e,
                        ) ==> !is_hidden_name(e.name)) by {
                            if k < self.stack.len() {
                                assert(taken.stack[k] == self.stack[k]);
                            }
                        }
                    }
                },
                (AwaitingView::AccessTime(entry), EventView::AccessTime(Some(last_access))) => {
                    if is_stale_at(last_access as int, self.now as int, self.threshold as int)
                        && !has_path(self.results, entry.path) {
                        assert forall|i: int, j: int|
                            0 <= i < j < taken.results.len() implies (#[trigger] taken.results[i]).file_path
                            != (#[trigger] taken.results[j]).file_path by {
                            assert(taken.results[i] == self.results[i]);
                            if j < self.results.len() {
                                assert(taken.results[j] == self.results[j]);
                            }
                        }
                        let days = self.threshold as int / 86_400;
                        assert(days * 86_400 <= self.threshold);
                        lemma_stale_days(
                            last_access as int,
                            self.now as int,
                            days,
                        );
                        assert(whole_days(last_access as int, self.now as int) <= self.now);
                        assert forall|k: int| 0 <= k < taken.results.len() implies taken.reportable(
                            #[trigger] taken.results[k],
                        ) by {
                            if k < self.results.len() {
                                assert(taken.results[k] == self.results[k]);
                                assert(self.reportable(self.results[k]));
                            }
                        }
                    }
                },
                _ => {},
            }
        }
    }

    /// The directory at `path` waits on the stack, as a directory that the
    /// scan was asked to search or as one whose name is not hidden.
    pub open spec fn may_list(self, path: Seq<char>) -> bool {
        exists|k: int|
            0 <= k < self.stack.len() && match #[trigger] self.stack[k] {
                PendingView::Root(root) => root == path,
                PendingView::Directory(entry) => entry.path == path && !is_hidden_name(entry.name),
                PendingView::Entry(_) => false,
            }
    }

    /// Going on asks only about what may be asked about.
    pub proof fn lemma_advance_asks_visible(self)
        requires
            self.inv(),
        ensures
            match self.advance().1 {
                ActionView::ListDirectory(path) => self.may_list(path),
                ActionView::QueryKind(path) => self.advance().0.awaiting matches AwaitingView::Kind(
                    entry,
                ) && entry.path == path && !is_hidden_name(entry.name),
                ActionView::QueryAccessTime(path) => self.advance().0.awaiting matches AwaitingView::AccessTime(
                    entry,
                ) && entry.path == path && !is_excluded_name(entry.name, self.smart_filter),
                ActionView::Finished => true,
            },
        decreases self.stack.len(),
    {
        if self.awaiting is AccessTime {
        } else if self.stack.len() > 0 {
            let rest = self.stack.drop_last();
            let top = self.stack.len() - 1;
            match self.stack.last() {
                PendingView::Root(path) => {
                    assert(self.stack[top] == PendingView::Root(path));
                },
                PendingView::Directory(entry) => {
                    assert(self.stack[top] == PendingView::Directory(entry));
                },
                PendingView::Entry(entry) => {
                    if is_hidden_name(entry.name) {
                        let skipped = ScanState { stack: rest, ..self };
                        assert(skipped.inv()) by {
                            assert forall|k: int| 0 <= k < rest.len() implies (#[trigger] rest[k] matches PendingView::Directory(
                                e,
                            ) ==> !is_hidden_name(e.name)) by {
                                assert(rest[k] == self.stack[k]);
                            }
                        }
                        skipped.lemma_advance_asks_visible();
                        if let ActionView::ListDirectory(path) = skipped.advance().1 {
                            let k = choose|k: int|
                                0 <= k < rest.len() && match #[trigger] rest[k] {
                                    PendingView::Root(root) => root == path,
                                    PendingView::Directory(e) => e.path == path && !is_hidden_name(
                                        e.name,
                                    ),
                                    PendingView::Entry(_) => false,
                                };
                            assert(self.stack[k] == rest[k]);
                        }
                    }
                },
            }
        }
    }

    /// Whatever the driver answers, the scan then lists only directories
    /// that it was asked to search or whose names are not hidden, asks only
    /// whether a visible entry is a directory, and asks only for the access
    /// time of a file whose name is not excluded.
    pub proof fn lemma_step_asks_visible(self, event: EventView)
        requires
            self.inv(),
        ensures
            match self.step(event).1 {
                ActionView::ListDirectory(path) => self.absorb(event).may_list(path),
                ActionView::QueryKind(path) => self.step(event).0.awaiting matches AwaitingView::Kind(
                    entry,
                ) && entry.path == path && !is_hidden_name(entry.name),
                ActionView::QueryAccessTime(path) => self.step(event).0.awaiting matches AwaitingView::AccessTime(
                    entry,
                ) && entry.path == path && !is_excluded_name(entry.name, self.smart_filter),
                ActionView::Finished => true,
            },
    {
        self.lemma_absorb_keeps_inv(event);
        self.absorb(event).lemma_advance_asks_visible();
    }
}

impl Scanner {
    /// A scan that is about to begin: it will search `directories` in their
    /// order, at the time `now`, and report the files that went without
    /// access for more than `threshold` seconds.
    pub fn new(threshold: u64, smart_filter: bool, directories: Vec<String>, now: u64) -> (scanner:
        Scanner)
        ensures
            scanner@ == (ScanState {
                threshold,
                smart_filter,
                now,
                stack: stacked_roots(strings_view(directories@)),
                awaiting: AwaitingView::Nothing,
                results: Seq::empty(),
            }),
            scanner@.inv(),
    {
        let ghost wanted = strings_view(directories@);
        let mut directories = directories;
        let mut stack: Vec<Pending> = Vec::new();
        while directories.len() > 0
            invariant
                directories@.len() <= wanted.len(),
                strings_view(directories@) == wanted.take(directories@.len() as int),
                stack@.len() == wanted.len() - directories@.len(),
                forall|k: int|
                    0 <= k < stack@.len() ==> (#[trigger] stack@[k])@ == PendingView::Root(
                        wanted[wanted.len() - 1 - k],
                    ),
            decreases directories@.len(),
        {
            let ghost before = strings_view(directories@);
            let directory = directories.pop().unwrap();
            assert(directory@ == before[before.len() - 1]);
            assert(strings_view(directories@) =~= wanted.take(
                directories@.len() as int,
            ));
            stack.push(Pending::Root(directory));
        }
        let scanner = Scanner {
            threshold,
            smart_filter,
            now,
            stack,
            awaiting: Awaiting::Nothing,
            results: Vec::new(),
        };
        assert(scanner@.stack =~= stacked_roots(wanted));
        assert(scanner@.results =~= Seq::<CandidateView>::empty());
        scanner
    }

    /// Takes in the driver's answer and returns the next request.
    pub fn step(&mut self, event: ScanEvent) -> (action: ScanAction)
        ensures
            (final(self)@, action@) == old(self)@.step(event@),
            old(self)@.inv() ==> final(self)@.inv(),
    {
        proof {
            if self@.inv() {
                self@.lemma_step_keeps_inv(event@);
            }
        }
        let ghost before = self@;
        let mut awaited = Awaiting::Nothing;
        core::mem::swap(&mut self.awaiting, &mut awaited);
        match (awaited, event) {
            (Awaiting::Listing, ScanEvent::Listed(entries)) => {
                let mut entries = entries;
                let ghost listed = entries_view(entries@);
                while entries.len() > 0
                    invariant
                        entries@.len() <= listed.len(),
                        entries_view(entries@) == listed.take(entries@.len() as int),
                        stack_view(self.stack@) == before.stack + stacked(listed).take(
                            listed.len() - entries@.len(),
                        ),
                        self.threshold == before.threshold,
                        self.smart_filter == before.smart_filter,
                        self.now == before.now,
                        self.awaiting@ == AwaitingView::Nothing,
                        views(self.results@) == before.results,
                    decreases entries@.len(),
                {
                    let ghost left = entries_view(entries@);
                    let ghost stack_before = stack_view(self.stack@);
                    let entry = entries.pop().unwrap();
                    assert(entry@ == left[left.len() - 1]);
                    assert(entries_view(entries@) =~= listed.take(entries@.len() as int));
                    self.stack.push(Pending::Entry(entry));
                    assert(stack_view(self.stack@) =~= stack_before.push(PendingView::Entry(entry@)));
                    assert(stack_view(self.stack@) =~= before.stack + stacked(listed).take(
                        listed.len() - entries@.len(),
                    ));
                }
                assert(stacked(listed).take(listed.len() as int) =~= stacked(listed));
            },
            (Awaiting::Kind(entry), ScanEvent::Kind(directory)) => {
                if directory {
                    let ghost stack_before = stack_view(self.stack@);
                    self.stack.push(Pending::Directory(entry));
                    assert(stack_view(self.stack@) =~= stack_before.push(
                        PendingView::Directory(entry@),
                    ));
                } else if !is_excluded(entry.name.as_str(), self.smart_filter) {
                    let path = entry.path.clone();
                    self.awaiting = Awaiting::AccessTime(entry);
                    assert(self@ == before.absorb(event@));
                    return ScanAction::QueryAccessTime(path);
                }
            },
            (Awaiting::AccessTime(entry), ScanEvent::AccessTime(Some(last_access))) => {
                if is_stale(last_access, self.now, self.threshold) && !holds_path(
                    &self.results,
                    &entry.path,
                ) {
                    let days = days_since_access(last_access, self.now);
                    let ghost results_before = views(self.results@);
                    self.results.push(ScanCandidate::new(entry.path, entry.name, days));
                    assert(views(self.results@) =~= results_before.push(
                        found(entry@, last_access, self.now),
                    ));
                }
            },
            _ => {},
        }
        assert(self@ == before.absorb(event@));
        let ghost goal = before.step(event@);
        loop
            invariant
                self@.advance() == goal,
                goal == old(self)@.step(event@),
                old(self)@.inv() ==> goal.0.inv(),
                !(self.awaiting@ is AccessTime),
            decreases self.stack@.len(),
        {
            let ghost stack_before = stack_view(self.stack@);
            match self.stack.pop() {
                None => {
                    assert(stack_before.len() == 0);
                    return ScanAction::Finished;
                },
                Some(item) => {
                    assert(item@ == stack_before.last());
                    assert(stack_view(self.stack@) =~= stack_before.drop_last());
                    match item {
                        Pending::Root(path) => {
                            self.awaiting = Awaiting::Listing;
                            return ScanAction::ListDirectory(path);
                        },
                        Pending::Directory(entry) => {
                            self.awaiting = Awaiting::Listing;
                            return ScanAction::ListDirectory(entry.path);
                        },
                        Pending::Entry(entry) => {
                            if !is_hidden(entry.name.as_str()) {
                                let path = entry.path.clone();
                                self.awaiting = Awaiting::Kind(entry);
                                return ScanAction::QueryKind(path);
                            }
                        },
                    }
                },
            }
        }
    }

    /// Ends the scan and hands out what it found: no two records of it
    /// have the same path.
    pub fn into_results(self) -> (results: Vec<ScanCandidate>)
        ensures
            views(results@) == self@.results,
            self@.inv() ==> distinct_paths(views(results@)),
    {
        self.results
    }
}

} // verus!
