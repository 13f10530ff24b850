//! Removing the selected files, as a state machine.
//!
//! The commit decides; its driver touches the file system. Files are either
//! deleted for good or moved into a holding directory, from which they can be
//! taken back. Each selected candidate is taken in turn; for an executable
//! its support files go first. A file that cannot be removed is counted and
//! the commit goes on. The holding directory is asked for on demand, when the
//! first selected candidate is taken up. Only a holding directory that cannot
//! be had ends the commit, and then before any file has been touched.

use vstd::prelude::*;
use crate::assoc::{
    associated_entries, associated_files, containing_directory, directory_containing,
    get_exe_base_name, is_associated_entry, is_executable, is_executable_path,
    lemma_associated_prefix,
};
use crate::aggregate::selected_under;
use crate::candidate::{views, CandidateView, ScanCandidate};
use crate::naming::{destination, destination_path, stamped, stamped_name};
use crate::path::{directory_of, lies_under, root};
use crate::scanner::{entries_view, DirEntry, EntryView};
use crate::text::{chars_of, lowercase, to_lowercase};

verus! {

/// How the selected files leave their place.
#[derive(Debug)]
pub enum CommitMode {
    /// They are deleted; this cannot be undone.
    Delete,
    /// They are moved into the holding directory at this path.
    MoveTo(String),
}

pub ghost enum ModeView {
    Delete,
    MoveTo(Seq<char>),
}

impl View for CommitMode {
    type V = ModeView;

    open spec fn view(&self) -> ModeView {
        match self {
            CommitMode::Delete => ModeView::Delete,
            CommitMode::MoveTo(holding) => ModeView::MoveTo(holding@),
        }
    }
}

/// One file to remove.
#[derive(Debug)]
pub struct Job {
    pub file: DirEntry,
    /// Whether the file is a selected candidate itself, and not a support
    /// file of one.
    pub primary: bool,
}

pub ghost struct JobView {
    pub file: EntryView,
    pub primary: bool,
}

impl View for Job {
    type V = JobView;

    open spec fn view(&self) -> JobView {
        JobView { file: self.file@, primary: self.primary }
    }
}

/// The jobs of a queue as plain values.
pub open spec fn jobs_view(jobs: Seq<Job>) -> Seq<JobView> {
    Seq::new(jobs.len(), |k: int| jobs[k]@)
}

/// What became of one file.
#[derive(Debug)]
pub struct Outcome {
    pub path: String,
    pub primary: bool,
    pub succeeded: bool,
}

pub ghost struct OutcomeView {
    pub path: Seq<char>,
    pub primary: bool,
    pub succeeded: bool,
}

impl View for Outcome {
    type V = OutcomeView;

    open spec fn view(&self) -> OutcomeView {
        OutcomeView { path: self.path@, primary: self.primary, succeeded: self.succeeded }
    }
}

/// The outcomes of a commit as plain values.
pub open spec fn outcomes_view(done: Seq<Outcome>) -> Seq<OutcomeView> {
    Seq::new(done.len(), |k: int| done[k]@)
}

/// What the commit has asked its driver and waits to hear.
#[derive(Debug)]
pub enum CommitAwaiting {
    Nothing,
    /// Whether the holding directory is there.
    Holding,
    /// The entries of the directory of this executable.
    Siblings(DirEntry),
    /// Whether the name of this file is taken in the holding directory.
    Probe(Job),
    /// Whether this file was removed.
    Outcome(Job),
}

pub ghost enum CommitAwaitingView {
    Nothing,
    Holding,
    Siblings(EntryView),
    Probe(JobView),
    Outcome(JobView),
}

impl View for CommitAwaiting {
    type V = CommitAwaitingView;

    open spec fn view(&self) -> CommitAwaitingView {
        match self {
            CommitAwaiting::Nothing => CommitAwaitingView::Nothing,
            CommitAwaiting::Holding => CommitAwaitingView::Holding,
            CommitAwaiting::Siblings(exe) => CommitAwaitingView::Siblings(exe@),
            CommitAwaiting::Probe(job) => CommitAwaitingView::Probe(job@),
            CommitAwaiting::Outcome(job) => CommitAwaitingView::Outcome(job@),
        }
    }
}

/// What the driver reports to the commit.
#[derive(Debug)]
pub enum CommitEvent {
    /// Nothing was asked: the commit begins, or goes on.
    Resume,
    /// Whether the holding directory is there, after an attempt to create it.
    Prepared(bool),
    /// The directory was read; these are its entries.
    Listed(Vec<DirEntry>),
    /// The directory could not be read.
    Unreadable,
    /// Whether a file stands at the path that was probed.
    Exists(bool),
    /// Whether the file was deleted or moved.
    Done(bool),
}

pub ghost enum CommitEventView {
    Resume,
    Prepared(bool),
    Listed(Seq<EntryView>),
    Unreadable,
    Exists(bool),
    Done(bool),
}

impl View for CommitEvent {
    type V = CommitEventView;

    open spec fn view(&self) -> CommitEventView {
        match self {
            CommitEvent::Resume => CommitEventView::Resume,
            CommitEvent::Prepared(ready) => CommitEventView::Prepared(*ready),
            CommitEvent::Listed(entries) => CommitEventView::Listed(entries_view(entries@)),
            CommitEvent::Unreadable => CommitEventView::Unreadable,
            CommitEvent::Exists(taken) => CommitEventView::Exists(*taken),
            CommitEvent::Done(succeeded) => CommitEventView::Done(*succeeded),
        }
    }
}

/// What the commit asks its driver to do next.
#[derive(Debug)]
pub enum CommitAction {
    /// Create the holding directory at this path if it is missing, and
    /// report whether it is there.
    PrepareHolding(String),
    /// Read the directory at this path and report its entries.
    ListSiblings(String),
    /// Report whether a file stands at this path.
    Probe(String),
    /// Delete the file at this path and report whether that worked.
    Delete(String),
    /// Move the file and report whether that worked.
    Move { from: String, to: String },
    /// The commit is over.
    Finished,
}

pub ghost enum CommitActionView {
    PrepareHolding(Seq<char>),
    ListSiblings(Seq<char>),
    Probe(Seq<char>),
    Delete(Seq<char>),
    Move { from: Seq<char>, to: Seq<char> },
    Finished,
}

impl View for CommitAction {
    type V = CommitActionView;

    open spec fn view(&self) -> CommitActionView {
        match self {
            CommitAction::PrepareHolding(path) => CommitActionView::PrepareHolding(path@),
            CommitAction::ListSiblings(path) => CommitActionView::ListSiblings(path@),
            CommitAction::Probe(path) => CommitActionView::Probe(path@),
            CommitAction::Delete(path) => CommitActionView::Delete(path@),
            CommitAction::Move { from, to } => CommitActionView::Move { from: from@, to: to@ },
            CommitAction::Finished => CommitActionView::Finished,
        }
    }
}

/// A commit in progress.
pub struct Commit {
    pub mode: CommitMode,
    /// The time of the commit, in seconds since the epoch: what is appended
    /// to a name that is taken.
    pub stamp: u64,
    /// The collection that is committed.
    pub candidates: Vec<ScanCandidate>,
    /// The position of the candidate that is looked at next.
    pub next: usize,
    /// The files of the candidate in hand that wait; the last is taken first.
    pub queue: Vec<Job>,
    pub awaiting: CommitAwaiting,
    /// Whether the holding directory has been asked for and is there.
    pub ready: bool,
    /// Whether the holding directory could not be had.
    pub aborted: bool,
    /// What became of the files so far.
    pub done: Vec<Outcome>,
}

/// A commit in progress as plain values.
pub ghost struct CommitState {
    pub mode: ModeView,
    pub stamp: u64,
    pub candidates: Seq<CandidateView>,
    pub next: nat,
    pub queue: Seq<JobView>,
    pub awaiting: CommitAwaitingView,
    pub ready: bool,
    pub aborted: bool,
    pub done: Seq<OutcomeView>,
}

impl View for Commit {
    type V = CommitState;

    open spec fn view(&self) -> CommitState {
        CommitState {
            mode: self.mode@,
            stamp: self.stamp,
            candidates: views(self.candidates@),
            next: self.next as nat,
            queue: jobs_view(self.queue@),
            awaiting: self.awaiting@,
            ready: self.ready,
            aborted: self.aborted,
            done: outcomes_view(self.done@),
        }
    }
}

/// Support files as they are put on the queue: the first one last, so that
/// it is taken first.
pub open spec fn stacked_jobs(files: Seq<EntryView>) -> Seq<JobView> {
    Seq::new(files.len(), |k: int| JobView { file: files[files.len() - 1 - k], primary: false })
}

/// The job of removing a candidate itself.
pub open spec fn primary_job(file: EntryView) -> JobView {
    JobView { file, primary: true }
}

/// The candidate as an entry of its directory.
pub open spec fn entry_of(candidate: CandidateView) -> EntryView {
    EntryView { name: candidate.file_name, path: candidate.file_path }
}

/// What is recorded of a job that ended.
pub open spec fn outcome_of(job: JobView, succeeded: bool) -> OutcomeView {
    OutcomeView { path: job.file.path, primary: job.primary, succeeded }
}

/// The kinds of outcome that a commit counts.
#[derive(Clone, Copy, Debug, PartialEq, Eq, Structural)]
pub enum Tally {
    /// A candidate was removed.
    Moved,
    /// A support file was removed.
    Associated,
    /// A file could not be removed.
    Failed,
}

/// Whether the outcome is of the kind.
pub open spec fn is_of_kind(outcome: OutcomeView, kind: Tally) -> bool {
    match kind {
        Tally::Moved => outcome.succeeded && outcome.primary,
        Tally::Associated => outcome.succeeded && !outcome.primary,
        Tally::Failed => !outcome.succeeded,
    }
}

/// How many outcomes are of the kind.
pub open spec fn tally(done: Seq<OutcomeView>, kind: Tally) -> nat
    decreases done.len(),
{
    if done.len() == 0 {
        0
    } else {
        tally(done.drop_last(), kind) + if is_of_kind(done.last(), kind) {
            1nat
        } else {
            0nat
        }
    }
}

/// The counts of a commit that came to its end.
#[derive(Clone, Copy, Debug, PartialEq, Eq, Structural)]
pub struct CommitResult {
    /// Candidates that were removed.
    pub moved: usize,
    /// Support files that were removed.
    pub associated: usize,
    /// Files, of either kind, that could not be removed.
    pub failed: usize,
}

/// Why a commit ended without touching a file.
#[derive(Clone, Copy, Debug, PartialEq, Eq, Structural)]
pub enum CommitError {
    /// The holding directory is not there and could not be created.
    HoldingDirectoryUnavailable,
}

/// How many of the first `upto` candidates are selected.
pub open spec fn selected_before(candidates: Seq<CandidateView>, upto: nat) -> nat
    decreases upto,
{
    if upto == 0 || upto > candidates.len() {
        0
    } else {
        selected_before(candidates, (upto - 1) as nat) + if candidates[upto - 1].should_delete {
            1nat
        } else {
            0nat
        }
    }
}

/// How many outcomes are those of candidates themselves.
pub open spec fn primaries_done(done: Seq<OutcomeView>) -> nat
    decreases done.len(),
{
    if done.len() == 0 {
        0
    } else {
        primaries_done(done.drop_last()) + if done.last().primary {
            1nat
        } else {
            0nat
        }
    }
}

/// How many jobs of a queue are those of candidates themselves.
pub open spec fn primaries_queued(queue: Seq<JobView>) -> nat
    decreases queue.len(),
{
    if queue.len() == 0 {
        0
    } else {
        primaries_queued(queue.drop_last()) + if queue.last().primary {
            1nat
        } else {
            0nat
        }
    }
}

/// Whether the commit waits to hear of a candidate itself: one if so.
pub open spec fn primaries_awaited(awaiting: CommitAwaitingView) -> nat {
    match awaiting {
        CommitAwaitingView::Siblings(_) => 1,
        CommitAwaitingView::Probe(job) => if job.primary {
            1
        } else {
            0
        },
        CommitAwaitingView::Outcome(job) => if job.primary {
            1
        } else {
            0
        },
        _ => 0,
    }
}

/// Support files add no candidate to a queue.
pub proof fn lemma_support_adds_no_primary(queue: Seq<JobView>, files: Seq<EntryView>)
    ensures
        primaries_queued(queue + stacked_jobs(files)) == primaries_queued(queue),
    decreases files.len(),
{
    if files.len() == 0 {
        assert(queue + stacked_jobs(files) =~= queue);
    } else {
        let whole = queue + stacked_jobs(files);
        assert(whole.last() == JobView { file: files.first(), primary: false });
        assert(whole.drop_last() =~= queue + stacked_jobs(files.drop_first()));
        lemma_support_adds_no_primary(queue, files.drop_first());
    }
}

/// The selected among all candidates are the selected of the collection.
pub proof fn lemma_selected_before_all(candidates: Seq<CandidateView>, upto: nat)
    requires
        upto <= candidates.len(),
    ensures
        selected_before(candidates, upto) == selected_under(candidates.take(upto as int), root()),
    decreases upto,
{
    if upto > 0 {
        lemma_selected_before_all(candidates, (upto - 1) as nat);
        let front = candidates.take(upto as int);
        assert(front.drop_last() =~= candidates.take(upto - 1));
        assert(front.last() == candidates[upto - 1]);
        assert(lies_under(front.last().file_path, root())) by {
            assert(directory_of(front.last().file_path).take(0) =~= root());
        }
    }
}

impl CommitState {
    /// The state after the answer `event` has been taken in, and the request
    /// that follows from it at once, if one does. A holding directory that
    /// is there lets the commit go on; one that is not ends it. The listing of an executable's directory
    /// puts the executable on the queue and its support files above it. The
    /// answer to a probe decides the name under which the file is moved: its
    /// own, or the stamped one where its own is taken. The answer to a
    /// removal is recorded. An answer that is missing, or is not the one that
    /// was asked for, counts as a failure of what was asked.
    pub open spec fn absorb(self, event: CommitEventView) -> (CommitState, Option<CommitActionView>) {
        let idle = CommitState { awaiting: CommitAwaitingView::Nothing, ..self };
        match self.awaiting {
            CommitAwaitingView::Nothing => (idle, None),
            CommitAwaitingView::Holding => if event == CommitEventView::Prepared(true) {
                (CommitState { ready: true, ..idle }, None)
            } else {
                (CommitState { aborted: true, ..idle }, None)
            },
            CommitAwaitingView::Siblings(exe) => {
                let support = match event {
                    CommitEventView::Listed(entries) => associated_files(entries, exe.path),
                    _ => Seq::empty(),
                };
                (
                    CommitState {
                        queue: self.queue.push(primary_job(exe)) + stacked_jobs(support),
                        ..idle
                    },
                    None,
                )
            },
            CommitAwaitingView::Probe(job) => match (event, self.mode) {
                (CommitEventView::Exists(taken), ModeView::MoveTo(holding)) => {
                    let name = if taken {
                        stamped(job.file.name, self.stamp)
                    } else {
                        job.file.name
                    };
                    (
                        CommitState { awaiting: CommitAwaitingView::Outcome(job), ..self },
                        Some(
                            CommitActionView::Move {
                                from: job.file.path,
                                to: destination(holding, name),
                            },
                        ),
                    )
                },
                _ => (CommitState { done: self.done.push(outcome_of(job, false)), ..idle }, None),
            },
            CommitAwaitingView::Outcome(job) => {
                let succeeded = event == CommitEventView::Done(true);
                (CommitState { done: self.done.push(outcome_of(job, succeeded)), ..idle }, None)
            },
        }
    }

    /// The commit moves files and has not got its holding directory yet.
    pub open spec fn needs_holding(self) -> bool {
        self.mode is MoveTo && !self.ready
    }

    /// The state and the request after the commit has gone on as far as it
    /// can without its driver. The file on top of the queue is removed: it is
    /// deleted, or its name is probed in the holding directory. With an empty
    /// queue the candidates that are not selected are passed over, and the
    /// next selected one is taken up. A commit that moves files and has not
    /// got its holding directory asks for it then, and leaves the candidate
    /// where it is. Else an executable has its directory listed, and any
    /// other file is removed. With no candidate left, or after the holding
    /// directory failed, the commit is over.
    pub open spec fn advance(self) -> (CommitState, CommitActionView)
        decreases self.candidates.len() - self.next,
    {
        if self.aborted {
            (self, CommitActionView::Finished)
        } else if self.queue.len() > 0 {
            let job = self.queue.last();
            let rest = self.queue.drop_last();
            match self.mode {
                ModeView::Delete => (
                    CommitState { queue: rest, awaiting: CommitAwaitingView::Outcome(job), ..self },
                    CommitActionView::Delete(job.file.path),
                ),
                ModeView::MoveTo(holding) => (
                    CommitState { queue: rest, awaiting: CommitAwaitingView::Probe(job), ..self },
                    CommitActionView::Probe(destination(holding, job.file.name)),
                ),
            }
        } else if self.next >= self.candidates.len() {
            (self, CommitActionView::Finished)
        } else {
            let candidate = self.candidates[self.next as int];
            let after = CommitState { next: self.next + 1, ..self };
            if !candidate.should_delete {
                after.advance()
            } else if self.needs_holding() {
                (
                    CommitState { awaiting: CommitAwaitingView::Holding, ..self },
                    CommitActionView::PrepareHolding(self.mode->MoveTo_0),
                )
            } else if is_executable_path(candidate.file_path) && containing_directory(
                candidate.file_path,
            ) is Some {
                (
                    CommitState {
                        awaiting: CommitAwaitingView::Siblings(entry_of(candidate)),
                        ..after
                    },
                    CommitActionView::ListSiblings(containing_directory(candidate.file_path)->0),
                )
            } else {
                let job = primary_job(entry_of(candidate));
                match self.mode {
                    ModeView::Delete => (
                        CommitState { awaiting: CommitAwaitingView::Outcome(job), ..after },
                        CommitActionView::Delete(job.file.path),
                    ),
                    ModeView::MoveTo(holding) => (
                        CommitState { awaiting: CommitAwaitingView::Probe(job), ..after },
                        CommitActionView::Probe(destination(holding, job.file.name)),
                    ),
                }
            }
        }
    }

    /// One step of the commit.
    pub open spec fn step(self, event: CommitEventView) -> (CommitState, CommitActionView) {
        match self.absorb(event) {
            (state, Some(action)) => (state, action),
            (state, None) => state.advance(),
        }
    }

    /// What holds of every state of a commit: as long as a commit that moves
    /// files has not got its holding directory, and after that directory
    /// failed, no file has been touched and none waits; a name is probed only
    /// where files are moved; every selected candidate that has been taken up
    /// is accounted for.
    pub open spec fn inv(self) -> bool {
        &&& self.needs_holding() ==> self.untouched() && (self.awaiting
            == CommitAwaitingView::Nothing || self.awaiting == CommitAwaitingView::Holding)
        &&& self.awaiting == CommitAwaitingView::Holding ==> self.needs_holding() && !self.aborted
        &&& self.aborted ==> self.needs_holding() && self.awaiting == CommitAwaitingView::Nothing
        &&& self.awaiting is Probe ==> self.mode is MoveTo
        &&& self.next <= self.candidates.len()
        &&& self.accounted()
    }

    /// Every selected candidate that has been taken up is in hand exactly
    /// once: its outcome is on record, or it waits on the queue, or the
    /// commit waits to hear of it.
    pub open spec fn accounted(self) -> bool {
        primaries_done(self.done) + primaries_queued(self.queue) + primaries_awaited(self.awaiting)
            == selected_before(self.candidates, self.next)
    }

    /// No file has been touched, and none waits to be.
    pub open spec fn untouched(self) -> bool {
        self.done.len() == 0 && self.queue.len() == 0
    }

    /// Going on keeps what holds of every state.
    pub proof fn lemma_advance_keeps_inv(self)
        requires
            self.inv(),
            self.awaiting == CommitAwaitingView::Nothing,
        ensures
            self.advance().0.inv(),
        decreases self.candidates.len() - self.next,
    {
        if self.aborted {
        } else if self.queue.len() > 0 {
        } else if self.next >= self.candidates.len() {
        } else {
            let candidate = self.candidates[self.next as int];
            let after = CommitState { next: self.next + 1, ..self };
            if !candidate.should_delete {
                after.lemma_advance_keeps_inv();
            }
        }
    }

    /// Taking an answer in keeps what holds of every state.
    pub proof fn lemma_absorb_keeps_inv(self, event: CommitEventView)
        requires
            self.inv(),
        ensures
            self.absorb(event).0.inv(),
            self.absorb(event).1 is None ==> self.absorb(event).0.awaiting
                == CommitAwaitingView::Nothing,
    {
        let taken = self.absorb(event).0;
        match self.awaiting {
            CommitAwaitingView::Siblings(exe) => {
                let support = match event {
                    CommitEventView::Listed(entries) => associated_files(entries, exe.path),
                    _ => Seq::empty(),
                };
                let queued = self.queue.push(primary_job(exe));
                assert(queued.drop_last() =~= self.queue);
                lemma_support_adds_no_primary(queued, support);
            },
            CommitAwaitingView::Probe(job) => {
                assert(self.done.push(outcome_of(job, false)).drop_last() =~= self.done);
            },
            CommitAwaitingView::Outcome(job) => {
                let succeeded = event == CommitEventView::Done(true);
                assert(self.done.push(outcome_of(job, succeeded)).drop_last() =~= self.done);
            },
            _ => {},
        }
    }

    /// A step keeps what holds of every state, whatever the driver answers.
    pub proof fn lemma_step_keeps_inv(self, event: CommitEventView)
        requires
            self.inv(),
        ensures
            self.step(event).0.inv(),
    {
        let (taken, action) = self.absorb(event);
        self.lemma_absorb_keeps_inv(event);
        if action is None {
            taken.lemma_advance_keeps_inv();
        }
    }

    /// A commit that could have its holding directory ends only when every
    /// candidate has been looked at and nothing waits, and then each selected
    /// candidate has exactly one outcome of its own on record, be it removed
    /// or failed.
    pub proof fn lemma_finished_accounts(self, event: CommitEventView)
        requires
            self.inv(),
            self.step(event).1 == CommitActionView::Finished,
            !self.step(event).0.aborted,
        ensures
            primaries_done(self.step(event).0.done) == selected_under(self.candidates, root()),
            self.step(event).0.queue.len() == 0,
            self.step(event).0.next == self.candidates.len(),
            self.step(event).0.candidates == self.candidates,
    {
        let (taken, action) = self.absorb(event);
        self.lemma_absorb_keeps_inv(event);
        assert(action is None);
        taken.lemma_advance_ends(self.candidates);
        let end = taken.advance().0;
        lemma_selected_before_all(end.candidates, end.next);
        assert(end.candidates.take(end.next as int) =~= end.candidates);
    }

    /// Where going on ends the commit without its holding directory having
    /// failed, every candidate has been looked at, nothing waits, and the
    /// selected candidates are accounted for by their outcomes.
    pub proof fn lemma_advance_ends(self, candidates: Seq<CandidateView>)
        requires
            self.inv(),
            self.awaiting == CommitAwaitingView::Nothing,
            self.candidates == candidates,
            self.advance().1 == CommitActionView::Finished,
            !self.advance().0.aborted,
        ensures
            self.advance().0.candidates == candidates,
            self.advance().0.queue.len() == 0,
            self.advance().0.next == candidates.len(),
            self.advance().0.inv(),
            primaries_done(self.advance().0.done) == selected_before(
                candidates,
                candidates.len(),
            ),
        decreases self.candidates.len() - self.next,
    {
        self.lemma_advance_keeps_inv();
        if self.aborted {
        } else if self.queue.len() > 0 {
        } else if self.next >= self.candidates.len() {
        } else {
            let candidate = self.candidates[self.next as int];
            let after = CommitState { next: self.next + 1, ..self };
            if !candidate.should_delete {
                after.lemma_advance_ends(candidates);
            }
        }
    }

    /// A holding directory that cannot be had ends the commit before any
    /// file is touched: the step that hears of it asks for nothing more, and
    /// no outcome is on record.
    pub proof fn lemma_failed_holding_touches_nothing(self, event: CommitEventView)
        requires
            self.inv(),
            self.awaiting == CommitAwaitingView::Holding,
            event != CommitEventView::Prepared(true),
        ensures
            self.step(event).1 == CommitActionView::Finished,
            self.step(event).0.aborted,
            self.step(event).0.done.len() == 0,
    {
    }

    /// A commit that has ended for want of its holding directory stays
    /// ended: every further step asks for nothing and records nothing.
    pub proof fn lemma_aborted_stays(self, event: CommitEventView)
        requires
            self.inv(),
            self.aborted,
        ensures
            self.step(event) == (self, CommitActionView::Finished),
    {
    }

    /// Going on asks for the holding directory only on demand, and for
    /// nothing that needs it before it is there.
    pub proof fn lemma_advance_holding_on_demand(self)
        requires
            self.inv(),
            self.awaiting == CommitAwaitingView::Nothing,
        ensures
            self.advance().0.asked_in_order(self.advance().1),
        decreases self.candidates.len() - self.next,
    {
        if self.aborted {
        } else if self.queue.len() > 0 {
        } else if self.next >= self.candidates.len() {
        } else {
            let candidate = self.candidates[self.next as int];
            let after = CommitState { next: self.next + 1, ..self };
            if !candidate.should_delete {
                after.lemma_advance_holding_on_demand();
            }
        }
    }

    /// The request `action`, made in this state, keeps the order of things:
    /// the holding directory is asked for only when a selected candidate is
    /// about to be taken up and no file has been touched; a directory is
    /// listed, a name is probed and a file is moved only once the holding
    /// directory is there.
    pub open spec fn asked_in_order(self, action: CommitActionView) -> bool {
        match action {
            CommitActionView::PrepareHolding(path) => {
                &&& self.mode == ModeView::MoveTo(path)
                &&& self.untouched()
                &&& self.next < self.candidates.len()
                &&& self.candidates[self.next as int].should_delete
            },
            CommitActionView::ListSiblings(_) => !self.needs_holding(),
            CommitActionView::Probe(_) => self.ready,
            CommitActionView::Move { from, to } => self.ready,
            _ => true,
        }
    }

    /// The holding directory is created on demand: whatever the driver
    /// answers, the commit asks for it only when a selected candidate is
    /// about to be taken up, so never where nothing is selected; and it
    /// lists no directory, probes no name and moves no file before the
    /// holding directory is there.
    pub proof fn lemma_holding_on_demand(self, event: CommitEventView)
        requires
            self.inv(),
        ensures
            self.step(event).0.asked_in_order(self.step(event).1),
    {
        let (taken, action) = self.absorb(event);
        self.lemma_absorb_keeps_inv(event);
        if action is None {
            taken.lemma_advance_holding_on_demand();
        }
    }
}

/// Every outcome is counted once: as a candidate removed, a support file
/// removed, or a failure.
pub proof fn lemma_tally_total(done: Seq<OutcomeView>)
    ensures
        tally(done, Tally::Moved) + tally(done, Tally::Associated) + tally(done, Tally::Failed)
            == done.len(),
    decreases done.len(),
{
    if done.len() > 0 {
        lemma_tally_total(done.drop_last());
    }
}

/// Counts the outcomes of the kind.
pub fn count_outcomes(done: &Vec<Outcome>, kind: Tally) -> (n: usize)
    ensures
        n == tally(outcomes_view(done@), kind),
{
    let ghost all = outcomes_view(done@);
    let mut n: usize = 0;
    let mut k: usize = 0;
    assert(all.take(0) =~= Seq::<OutcomeView>::empty());
    while k < done.len()
        invariant
            all == outcomes_view(done@),
            k <= done@.len(),
            n <= k,
            n == tally(all.take(k as int), kind),
        decreases done@.len() - k,
    {
        proof {
            let upto = all.take(k + 1);
            assert(upto.drop_last() =~= all.take(k as int));
            assert(upto.last() == done@[k as int]@);
        }
        let outcome = &done[k];
        let hit = match kind {
            Tally::Moved => outcome.succeeded && outcome.primary,
            Tally::Associated => outcome.succeeded && !outcome.primary,
            Tally::Failed => !outcome.succeeded,
        };
        if hit {
            n += 1;
        }
        k += 1;
    }
    assert(all.take(k as int) =~= all);
    n
}

/// Puts the support files of the executable at `exe_path`, found among the
/// entries of its directory, on the queue: the first of them on top.
pub fn queue_support_files(queue: &mut Vec<Job>, exe_path: &str, listing: Vec<DirEntry>)
    ensures
        jobs_view(final(queue)@) == jobs_view(old(queue)@) + stacked_jobs(
            associated_files(entries_view(listing@), exe_path@),
        ),
{
    let ghost base = jobs_view(queue@);
    let ghost all = entries_view(listing@);
    let exe_stem = match get_exe_base_name(exe_path) {
        Some(s) => s,
        None => {
            assert(jobs_view(queue@) =~= base + stacked_jobs(Seq::<EntryView>::empty()));
            return ;
        },
    };
    let ghost support = associated_entries(all, exe_path@, exe_stem@);
    let lower_stem = to_lowercase(exe_stem.as_str());
    let lower_stem_chars = chars_of(lower_stem.as_str());
    let exe_chars = chars_of(exe_path);
    let mut listing = listing;
    proof {
        lemma_associated_prefix(all, all.len() as int, exe_path@, exe_stem@);
        assert(all.take(all.len() as int) =~= all);
        assert(jobs_view(queue@) =~= base + stacked_jobs(support).take(0));
    }
    while listing.len() > 0
        invariant
            listing@.len() <= all.len(),
            entries_view(listing@) == all.take(listing@.len() as int),
            support == associated_entries(all, exe_path@, exe_stem@),
            exe_chars@ == exe_path@,
            lower_stem_chars@ == lowercase(exe_stem@),
            associated_entries(entries_view(listing@), exe_path@, exe_stem@).len() <= support.len(),
            jobs_view(queue@) == base + stacked_jobs(support).take(
                support.len() - associated_entries(
                    entries_view(listing@),
                    exe_path@,
                    exe_stem@,
                ).len(),
            ),
        decreases listing@.len(),
    {
        let ghost left = entries_view(listing@);
        let ghost kept = associated_entries(left, exe_path@, exe_stem@);
        let ghost queued = jobs_view(queue@);
        let entry = listing.pop().unwrap();
        proof {
            assert(entry@ == left.last());
            assert(entries_view(listing@) =~= left.drop_last());
            assert(entries_view(listing@) =~= all.take(listing@.len() as int));
            lemma_associated_prefix(all, left.len() as int, exe_path@, exe_stem@);
            lemma_associated_prefix(all, listing@.len() as int, exe_path@, exe_stem@);
        }
        if is_associated_entry(&entry, exe_chars.as_slice(), lower_stem_chars.as_slice()) {
            proof {
                assert(kept.last() == entry@);
                assert(kept == support.take(kept.len() as int));
                assert(stacked_jobs(support)[support.len() - kept.len()] == JobView {
                    file: entry@,
                    primary: false,
                });
            }
            queue.push(Job { file: entry, primary: false });
            assert(jobs_view(queue@) =~= queued.push(JobView { file: entry@, primary: false }));
            assert(jobs_view(queue@) =~= base + stacked_jobs(support).take(
                support.len() - kept.len() + 1,
            ));
        }
    }
    proof {
        assert(associated_entries(entries_view(listing@), exe_path@, exe_stem@).len() == 0);
        assert(stacked_jobs(support).take(support.len() as int) =~= stacked_jobs(support));
    }
}

impl Commit {
    /// A commit that is about to begin: it takes the collection over, and
    /// will remove the selected candidates in their order.
    pub fn new(candidates: Vec<ScanCandidate>, mode: CommitMode, stamp: u64) -> (commit: Commit)
        ensures
            commit@ == (CommitState {
                mode: mode@,
                stamp,
                candidates: views(candidates@),
                next: 0,
                queue: Seq::empty(),
                awaiting: CommitAwaitingView::Nothing,
                ready: false,
                aborted: false,
                done: Seq::empty(),
            }),
            commit@.inv(),
    {
        let commit = Commit {
            mode,
            stamp,
            candidates,
            next: 0,
            queue: Vec::new(),
            awaiting: CommitAwaiting::Nothing,
            ready: false,
            aborted: false,
            done: Vec::new(),
        };
        assert(commit@.queue =~= Seq::<JobView>::empty());
        assert(commit@.done =~= Seq::<OutcomeView>::empty());
        commit
    }

    fn record(&mut self, job: Job, succeeded: bool)
        ensures
            final(self)@ == (CommitState {
                done: old(self)@.done.push(outcome_of(job@, succeeded)),
                ..old(self)@
            }),
    {
        let ghost before = outcomes_view(self.done@);
        let primary = job.primary;
        self.done.push(Outcome { path: job.file.path, primary, succeeded });
        assert(outcomes_view(self.done@) =~= before.push(outcome_of(job@, succeeded)));
    }

    fn request_removal(&mut self, job: Job) -> (action: CommitAction)
        requires
            old(self).awaiting@ == CommitAwaitingView::Nothing,
        ensures
            old(self)@.mode matches ModeView::Delete ==> final(self)@ == (CommitState {
                awaiting: CommitAwaitingView::Outcome(job@),
                ..old(self)@
            }) && action@ == CommitActionView::Delete(job@.file.path),
            old(self)@.mode matches ModeView::MoveTo(holding) ==> final(self)@ == (CommitState {
                awaiting: CommitAwaitingView::Probe(job@),
                ..old(self)@
            }) && action@ == CommitActionView::Probe(destination(holding, job@.file.name)),
    {
        match &self.mode {
            CommitMode::Delete => {
                let path = job.file.path.clone();
                self.awaiting = CommitAwaiting::Outcome(job);
                CommitAction::Delete(path)
            },
            CommitMode::MoveTo(holding) => {
                let probe = destination_path(holding.as_str(), job.file.name.as_str());
                self.awaiting = CommitAwaiting::Probe(job);
                CommitAction::Probe(probe)
            },
        }
    }

    /// Takes in the driver's answer and returns the next request.
    pub fn step(&mut self, event: CommitEvent) -> (action: CommitAction)
        ensures
            (final(self)@, action@) == old(self)@.step(event@),
            old(self)@.inv() ==> final(self)@.inv(),
    {
        proof {
            if self@.inv() {
                self@.lemma_step_keeps_inv(event@);
            }
        }
        let ghost before = self@;
        let mut awaited = CommitAwaiting::Nothing;
        core::mem::swap(&mut self.awaiting, &mut awaited);
        match awaited {
            CommitAwaiting::Nothing => {},
            CommitAwaiting::Holding => {
                let ready = match event {
                    CommitEvent::Prepared(ready) => ready,
                    _ => false,
                };
                if ready {
                    self.ready = true;
                } else {
                    self.aborted = true;
                }
            },
            CommitAwaiting::Siblings(exe) => {
                let ghost queued = jobs_view(self.queue@);
                let exe_path = exe.path.clone();
                self.queue.push(Job { file: exe, primary: true });
                assert(jobs_view(self.queue@) =~= queued.push(primary_job(exe@)));
                match event {
                    CommitEvent::Listed(entries) => {
                        queue_support_files(&mut self.queue, exe_path.as_str(), entries);
                    },
                    _ => {
                        assert(jobs_view(self.queue@) =~= queued.push(primary_job(exe@))
                            + stacked_jobs(Seq::<EntryView>::empty()));
                    },
                }
            },
            CommitAwaiting::Probe(job) => {
                let taken = match event {
                    CommitEvent::Exists(taken) => Some(taken),
                    _ => None,
                };
                let to = match (taken, &self.mode) {
                    (Some(taken), CommitMode::MoveTo(holding)) => {
                        if taken {
                            let name = stamped_name(job.file.name.as_str(), self.stamp);
                            Some(destination_path(holding.as_str(), name.as_str()))
                        } else {
                            Some(destination_path(holding.as_str(), job.file.name.as_str()))
                        }
                    },
                    _ => None,
                };
                match to {
                    Some(to) => {
                        let from = job.file.path.clone();
                        self.awaiting = CommitAwaiting::Outcome(job);
                        return CommitAction::Move { from, to };
                    },
                    None => {
                        self.record(job, false);
                    },
                }
            },
            CommitAwaiting::Outcome(job) => {
                let succeeded = match event {
                    CommitEvent::Done(succeeded) => succeeded,
                    _ => false,
                };
                self.record(job, succeeded);
            },
        }
        assert(self@ == before.absorb(event@).0);
        assert(before.absorb(event@).1 is None);
        loop
            invariant
                self@.advance() == old(self)@.step(event@),
                old(self)@.inv() ==> old(self)@.step(event@).0.inv(),
                self.awaiting@ == CommitAwaitingView::Nothing,
            decreases self.candidates@.len() - self.next,
        {
            if self.aborted {
                return CommitAction::Finished;
            }
            let ghost queued = jobs_view(self.queue@);
            match self.queue.pop() {
                Some(job) => {
                    assert(job@ == queued.last());
                    assert(jobs_view(self.queue@) =~= queued.drop_last());
                    return self.request_removal(job);
                },
                None => {
                    assert(queued.len() == 0);
                },
            }
            if self.next >= self.candidates.len() {
                return CommitAction::Finished;
            }
            let candidate = &self.candidates[self.next];
            assert(candidate@ == views(self.candidates@)[self.next as int]);
            if !candidate.should_delete {
                self.next += 1;
                continue ;
            }
            if !self.ready {
                if let CommitMode::MoveTo(holding) = &self.mode {
                    let path = holding.clone();
                    self.awaiting = CommitAwaiting::Holding;
                    return CommitAction::PrepareHolding(path);
                }
            }
            let file = DirEntry {
                name: candidate.file_name.clone(),
                path: candidate.file_path.clone(),
            };
            self.next += 1;
            let listed = if is_executable(file.path.as_str()) {
                directory_containing(file.path.as_str())
            } else {
                None
            };
            match listed {
                Some(directory) => {
                    self.awaiting = CommitAwaiting::Siblings(file);
                    return CommitAction::ListSiblings(directory);
                },
                None => {
                    return self.request_removal(Job { file, primary: true });
                },
            }
        }
    }

    /// Ends the commit and gives its counts. The collection is gone with it:
    /// what is left on disk shows only in a new scan. A commit that ended
    /// for want of its holding directory reports that instead.
    pub fn finish(self) -> (r: Result<CommitResult, CommitError>)
        ensures
            self@.aborted ==> r == Err::<CommitResult, CommitError>(
                CommitError::HoldingDirectoryUnavailable,
            ),
            !self@.aborted ==> r == Ok::<CommitResult, CommitError>(
                CommitResult {
                    moved: tally(self@.done, Tally::Moved) as usize,
                    associated: tally(self@.done, Tally::Associated) as usize,
                    failed: tally(self@.done, Tally::Failed) as usize,
                },
            ),
    {
        if self.aborted {
            return Err(CommitError::HoldingDirectoryUnavailable);
        }
        Ok(
            CommitResult {
                moved: count_outcomes(&self.done, Tally::Moved),
                associated: count_outcomes(&self.done, Tally::Associated),
                failed: count_outcomes(&self.done, Tally::Failed),
            },
        )
    }
}

} // verus!
