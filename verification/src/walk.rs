//! What a whole scan finds.
//!
//! A file system is taken as what it answers: the listing of a directory,
//! whether a path is a directory, when a file was last accessed. The files
//! that a search should find are defined by plain recursion over these
//! answers. The theorem of this module says that the scanner, driven step by
//! step with the answers of a file system, comes to its end with exactly
//! these files, in this order, each path once.

use vstd::prelude::*;
use crate::candidate::{
    distinct_paths, entered, first_of_each_path, lemma_entered_distinct,
    lemma_entered_in_two_lots, CandidateView,
};
use crate::classifier::{is_excluded_name, is_hidden_name, is_stale_at};
use crate::scanner::{
    found, stacked, stacked_roots, ActionView, AwaitingView, EntryView, EventView, PendingView,
    ScanState,
};

verus! {

/// A file system, as what it answers.
pub ghost struct FileSystem {
    /// The entries of the directory at a path; nothing where it cannot be
    /// read.
    pub listing: spec_fn(Seq<char>) -> Option<Seq<EntryView>>,
    /// Whether a directory stands at a path.
    pub is_directory: spec_fn(Seq<char>) -> bool,
    /// When the file at a path was last accessed; nothing where that cannot
    /// be read.
    pub accessed: spec_fn(Seq<char>) -> Option<u64>,
}

/// What decides whether a file is reported.
pub ghost struct Rule {
    pub threshold: u64,
    pub smart_filter: bool,
    pub now: u64,
}

impl FileSystem {
    /// The answer to a request.
    pub open spec fn answer(self, action: ActionView) -> EventView {
        match action {
            ActionView::ListDirectory(path) => match (self.listing)(path) {
                Some(entries) => EventView::Listed(entries),
                None => EventView::Unreadable,
            },
            ActionView::QueryKind(path) => EventView::Kind((self.is_directory)(path)),
            ActionView::QueryAccessTime(path) => EventView::AccessTime((self.accessed)(path)),
            ActionView::Finished => EventView::Resume,
        }
    }

    /// The directory at `path` is at most `depth` directories deep, hidden
    /// directories not counted.
    pub open spec fn fits(self, path: Seq<char>, depth: nat) -> bool
        decreases depth, 0int,
    {
        depth > 0 && ((self.listing)(path) matches Some(entries) ==> forall|k: int|
            0 <= k < entries.len() ==> self.entry_fits(#[trigger] entries[k], (depth - 1) as nat))
    }

    /// The entry is a file, or is hidden, or is a directory that is at most
    /// `depth` directories deep.
    pub open spec fn entry_fits(self, entry: EntryView, depth: nat) -> bool
        decreases depth, 1int,
    {
        !is_hidden_name(entry.name) && (self.is_directory)(entry.path) ==> depth > 0 && self.fits(
            entry.path,
            depth,
        )
    }

    /// The stale files in the directory at `path` and below it: those of its
    /// entries, in the order of its listing. An unreadable directory holds
    /// none.
    pub open spec fn found_in(self, rule: Rule, path: Seq<char>, depth: nat) -> Seq<CandidateView>
        decreases depth, 0int, 0int,
    {
        if depth == 0 {
            Seq::empty()
        } else {
            match (self.listing)(path) {
                Some(entries) => self.found_among(rule, entries, (depth - 1) as nat),
                None => Seq::empty(),
            }
        }
    }

    /// The stale files that the entries lead to, entry by entry.
    pub open spec fn found_among(
        self,
        rule: Rule,
        entries: Seq<EntryView>,
        depth: nat,
    ) -> Seq<CandidateView>
        decreases depth, 2int, entries.len(),
    {
        if entries.len() == 0 {
            Seq::empty()
        } else {
            self.found_at(rule, entries.first(), depth) + self.found_among(
                rule,
                entries.drop_first(),
                depth,
            )
        }
    }

    /// The stale files that one entry leads to. A hidden entry leads to
    /// none. A directory leads to those in it and below it. A file leads to
    /// itself where its name is not excluded, its access time can be read
    /// and it is stale.
    pub open spec fn found_at(self, rule: Rule, entry: EntryView, depth: nat) -> Seq<CandidateView>
        decreases depth, 1int, 0int,
    {
        if is_hidden_name(entry.name) {
            Seq::empty()
        } else if (self.is_directory)(entry.path) {
            self.found_in(rule, entry.path, depth)
        } else if is_excluded_name(entry.name, rule.smart_filter) {
            Seq::empty()
        } else {
            match (self.accessed)(entry.path) {
                Some(last_access) => if is_stale_at(
                    last_access as int,
                    rule.now as int,
                    rule.threshold as int,
                ) {
                    seq![found(entry, last_access, rule.now)]
                } else {
                    Seq::empty()
                },
                None => Seq::empty(),
            }
        }
    }

    /// The stale files in and below the directories `roots`, directory by
    /// directory.
    pub open spec fn found_in_all(
        self,
        rule: Rule,
        roots: Seq<Seq<char>>,
        depth: nat,
    ) -> Seq<CandidateView>
        decreases roots.len(),
    {
        if roots.len() == 0 {
            Seq::empty()
        } else {
            self.found_in(rule, roots.first(), depth) + self.found_in_all(
                rule,
                roots.drop_first(),
                depth,
            )
        }
    }

    /// What an item of the scanner's stack leads to.
    pub open spec fn found_by(self, rule: Rule, item: PendingView, depth: nat) -> Seq<CandidateView> {
        match item {
            PendingView::Root(path) => self.found_in(rule, path, depth),
            PendingView::Directory(entry) => self.found_in(rule, entry.path, depth),
            PendingView::Entry(entry) => self.found_at(rule, entry, depth),
        }
    }

    /// Whether an item of the scanner's stack is at most `depth` directories
    /// deep.
    pub open spec fn item_fits(self, item: PendingView, depth: nat) -> bool {
        match item {
            PendingView::Root(path) => self.fits(path, depth),
            PendingView::Directory(entry) => self.fits(entry.path, depth),
            PendingView::Entry(entry) => self.entry_fits(entry, depth),
        }
    }

    /// What the items of a stack lead to, the last item first.
    pub open spec fn found_by_stack(
        self,
        rule: Rule,
        items: Seq<PendingView>,
        depth: nat,
    ) -> Seq<CandidateView>
        decreases items.len(),
    {
        if items.len() == 0 {
            Seq::empty()
        } else {
            self.found_by(rule, items.last(), depth) + self.found_by_stack(
                rule,
                items.drop_last(),
                depth,
            )
        }
    }

    /// Entries on the stack lead to what they lead to in their listing.
    pub proof fn lemma_stacked_entries(self, rule: Rule, entries: Seq<EntryView>, depth: nat)
        ensures
            self.found_by_stack(rule, stacked(entries), depth) == self.found_among(
                rule,
                entries,
                depth,
            ),
        decreases entries.len(),
    {
        if entries.len() > 0 {
            let items = stacked(entries);
            assert(items.last() == PendingView::Entry(entries.first()));
            assert(items.drop_last() =~= stacked(entries.drop_first()));
            self.lemma_stacked_entries(rule, entries.drop_first(), depth);
        }
    }

    /// Directories to search on the stack lead to what they lead to in
    /// their order.
    pub proof fn lemma_stacked_roots(self, rule: Rule, roots: Seq<Seq<char>>, depth: nat)
        ensures
            self.found_by_stack(rule, stacked_roots(roots), depth) == self.found_in_all(
                rule,
                roots,
                depth,
            ),
        decreases roots.len(),
    {
        if roots.len() > 0 {
            let items = stacked_roots(roots);
            assert(items.last() == PendingView::Root(roots.first()));
            assert(items.drop_last() =~= stacked_roots(roots.drop_first()));
            self.lemma_stacked_roots(rule, roots.drop_first(), depth);
        }
    }
}

impl ScanState {
    /// What decides in this scan whether a file is reported.
    pub open spec fn rule(self) -> Rule {
        Rule { threshold: self.threshold, smart_filter: self.smart_filter, now: self.now }
    }

    /// The state and the request after the file system has answered `steps`
    /// requests, `action` being the first of them.
    pub open spec fn drive(self, action: ActionView, fs: FileSystem, steps: nat) -> (
        ScanState,
        ActionView,
    )
        decreases steps,
    {
        if steps == 0 {
            (self, action)
        } else {
            let (next, asked) = self.step(fs.answer(action));
            next.drive(asked, fs, (steps - 1) as nat)
        }
    }

    /// The scan with the last `count` items of its stack done: they are off
    /// the stack and `more` has been entered into the results, each record
    /// only where no result had its path yet.
    pub open spec fn settled(self, count: int, more: Seq<CandidateView>) -> ScanState {
        ScanState {
            stack: self.stack.take(self.stack.len() - count),
            results: entered(self.results, more),
            ..self
        }
    }

    /// Driving on in two legs is driving on.
    pub proof fn lemma_drive_on(self, action: ActionView, fs: FileSystem, first: nat, second: nat)
        ensures
            self.drive(action, fs, first + second) == self.drive(action, fs, first).0.drive(
                self.drive(action, fs, first).1,
                fs,
                second,
            ),
        decreases first,
    {
        if first > 0 {
            let (next, asked) = self.step(fs.answer(action));
            next.lemma_drive_on(asked, fs, (first - 1) as nat, second);
            assert((first - 1) as nat + second == (first + second - 1) as nat);
        }
    }

    /// A scan that has nothing asked and a directory on top of its stack
    /// comes, after some answers, to where it would stand with that
    /// directory done and its stale files found.
    pub proof fn lemma_directory_done(self, fs: FileSystem, depth: nat) -> (steps: nat)
        requires
            self.awaiting == AwaitingView::Nothing,
            self.stack.len() > 0,
            !(self.stack.last() is Entry),
            fs.item_fits(self.stack.last(), depth),
        ensures
            self.advance().0.drive(self.advance().1, fs, steps) == self.settled(
                1,
                fs.found_by(self.rule(), self.stack.last(), depth),
            ).advance(),
        decreases depth, 0int, 0int,
    {
        let rest = self.stack.drop_last();
        let path = match self.stack.last() {
            PendingView::Root(path) => path,
            PendingView::Directory(entry) => entry.path,
            PendingView::Entry(entry) => entry.path,
        };
        let asking = ScanState { stack: rest, awaiting: AwaitingView::Listing, ..self };
        assert(self.advance() == (asking, ActionView::ListDirectory(path)));
        assert(self.stack.take(self.stack.len() - 1) =~= rest);
        match (fs.listing)(path) {
            Some(entries) => {
                let listed = ScanState {
                    stack: rest + stacked(entries),
                    awaiting: AwaitingView::Nothing,
                    ..self
                };
                assert(asking.absorb(EventView::Listed(entries)) == listed);
                assert forall|k: int| 0 <= k < stacked(entries).len() implies fs.item_fits(
                    #[trigger] stacked(entries)[k],
                    (depth - 1) as nat,
                ) by {
                    assert(fs.entry_fits(entries[entries.len() - 1 - k], (depth - 1) as nat));
                }
                assert(listed.stack.skip(listed.stack.len() - entries.len()) =~= stacked(entries));
                assert(listed.stack.take(listed.stack.len() - entries.len()) =~= rest);
                let inner = listed.lemma_stack_done(fs, entries.len(), (depth - 1) as nat);
                fs.lemma_stacked_entries(self.rule(), entries, (depth - 1) as nat);
                assert(asking.drive(ActionView::ListDirectory(path), fs, inner + 1)
                    == listed.advance().0.drive(listed.advance().1, fs, inner));
                inner + 1
            },
            None => {
                let skipped = ScanState { stack: rest, awaiting: AwaitingView::Nothing, ..self };
                assert(asking.absorb(EventView::Unreadable) == skipped);
                assert(asking.drive(ActionView::ListDirectory(path), fs, 1) == skipped.advance())
                    by {
                    reveal_with_fuel(ScanState::drive, 2);
                }
                1
            },
        }
    }

    /// A scan that has nothing asked and an entry on top of its stack comes,
    /// after some answers, to where it would stand with that entry done and
    /// what it leads to found.
    pub proof fn lemma_entry_done(self, fs: FileSystem, depth: nat) -> (steps: nat)
        requires
            self.awaiting == AwaitingView::Nothing,
            self.stack.len() > 0,
            self.stack.last() is Entry,
            fs.item_fits(self.stack.last(), depth),
        ensures
            self.advance().0.drive(self.advance().1, fs, steps) == self.settled(
                1,
                fs.found_by(self.rule(), self.stack.last(), depth),
            ).advance(),
        decreases depth, 1int, 0int,
    {
        let rest = self.stack.drop_last();
        let entry = self.stack.last()->Entry_0;
        let nothing = Seq::<CandidateView>::empty();
        assert(self.stack.take(self.stack.len() - 1) =~= rest);
        assert(entered(self.results, nothing) == self.results);
        let skipped = ScanState { stack: rest, awaiting: AwaitingView::Nothing, ..self };
        if is_hidden_name(entry.name) {
            assert(self.advance() == skipped.advance());
            0
        } else {
            let asking = ScanState { stack: rest, awaiting: AwaitingView::Kind(entry), ..self };
            let request = ActionView::QueryKind(entry.path);
            assert(self.advance() == (asking, request));
            if (fs.is_directory)(entry.path) {
                let entered = ScanState {
                    stack: rest.push(PendingView::Directory(entry)),
                    awaiting: AwaitingView::Nothing,
                    ..self
                };
                assert(asking.absorb(EventView::Kind(true)) == entered);
                assert(entered.stack.drop_last() =~= rest);
                assert(entered.stack.take(entered.stack.len() - 1) =~= rest);
                let inner = entered.lemma_directory_done(fs, depth);
                assert(asking.drive(request, fs, inner + 1) == entered.advance().0.drive(
                    entered.advance().1,
                    fs,
                    inner,
                ));
                inner + 1
            } else if is_excluded_name(entry.name, self.smart_filter) {
                assert(asking.absorb(EventView::Kind(false)) == skipped);
                assert(asking.drive(request, fs, 1) == skipped.advance()) by {
                    reveal_with_fuel(ScanState::drive, 2);
                }
                1
            } else {
                let timing = ScanState {
                    stack: rest,
                    awaiting: AwaitingView::AccessTime(entry),
                    ..self
                };
                let second = ActionView::QueryAccessTime(entry.path);
                assert(asking.absorb(EventView::Kind(false)) == timing);
                assert(timing.advance() == (timing, second));
                let more = fs.found_at(self.rule(), entry, depth);
                let done = ScanState {
                    stack: rest,
                    awaiting: AwaitingView::Nothing,
                    results: entered(self.results, more),
                    ..self
                };
                assert(timing.absorb(fs.answer(second)) == done) by {
                    match (fs.accessed)(entry.path) {
                        Some(last_access) => {
                            if is_stale_at(
                                last_access as int,
                                self.now as int,
                                self.threshold as int,
                            ) {
                                let record = found(entry, last_access, self.now);
                                assert(more.drop_last() =~= nothing);
                                assert(more.last() == record);
                                assert(record.file_path == entry.path);
                            }
                        },
                        None => {},
                    }
                }
                assert(asking.drive(request, fs, 2) == done.advance()) by {
                    reveal_with_fuel(ScanState::drive, 3);
                }
                2
            }
        }
    }

    /// A scan that has nothing asked comes, after some answers, to where it
    /// would stand with the last `count` items of its stack done and what
    /// they lead to found.
    pub proof fn lemma_stack_done(self, fs: FileSystem, count: nat, depth: nat) -> (steps: nat)
        requires
            self.awaiting == AwaitingView::Nothing,
            count <= self.stack.len(),
            forall|k: int|
                self.stack.len() - count <= k < self.stack.len() ==> fs.item_fits(
                    #[trigger] self.stack[k],
                    depth,
                ),
        ensures
            self.advance().0.drive(self.advance().1, fs, steps) == self.settled(
                count as int,
                fs.found_by_stack(self.rule(), self.stack.skip(self.stack.len() - count), depth),
            ).advance(),
        decreases depth, 2int, count,
    {
        let nothing = Seq::<CandidateView>::empty();
        if count == 0 {
            assert(self.stack.take(self.stack.len() as int) =~= self.stack);
            assert(self.stack.skip(self.stack.len() as int) =~= Seq::<PendingView>::empty());
            assert(entered(self.results, nothing) == self.results);
            assert(self.settled(0, nothing) == self);
            0
        } else {
            let top = self.stack.last();
            assert(top == self.stack[self.stack.len() - 1]);
            let first = if top is Entry {
                self.lemma_entry_done(fs, depth)
            } else {
                self.lemma_directory_done(fs, depth)
            };
            let one = fs.found_by(self.rule(), top, depth);
            let after = self.settled(1, one);
            assert forall|k: int| after.stack.len() - (count - 1) <= k < after.stack.len() implies fs.item_fits(
                #[trigger] after.stack[k],
                depth,
            ) by {
                assert(after.stack[k] == self.stack[k]);
            }
            let second = after.lemma_stack_done(fs, (count - 1) as nat, depth);
            let items = self.stack.skip(self.stack.len() - count);
            assert(items.last() == top);
            assert(items.drop_last() =~= after.stack.skip(after.stack.len() - (count - 1)));
            let others = fs.found_by_stack(self.rule(), items.drop_last(), depth);
            assert(after.settled(count - 1, others).stack =~= self.settled(
                count as int,
                one + others,
            ).stack);
            lemma_entered_in_two_lots(self.results, one, others);
            assert(after.settled(count - 1, others) == self.settled(count as int, one + others));
            self.advance().0.lemma_drive_on(self.advance().1, fs, first, second);
            first + second
        }
    }
}

/// The scan as it begins.
pub open spec fn beginning(rule: Rule, roots: Seq<Seq<char>>) -> ScanState {
    ScanState {
        threshold: rule.threshold,
        smart_filter: rule.smart_filter,
        now: rule.now,
        stack: stacked_roots(roots),
        awaiting: AwaitingView::Nothing,
        results: Seq::empty(),
    }
}

/// A scan finds what a recursive search finds. Where none of the directories
/// to search is more than `depth` directories deep, the scanner, begun on
/// them and driven with the answers of the file system, comes to its end
/// after some number of answers, and its results are then the stale files in
/// and below these directories: each directory in its turn, its entries in
/// the order of its listing, a directory among them before the entries
/// behind it; without the hidden entries and what lies in hidden
/// directories, without the files whose names are excluded, and without the
/// records whose path came earlier, so that a file that is reached through
/// two of the directories is found once.
pub proof fn theorem_scan_finds(fs: FileSystem, rule: Rule, roots: Seq<Seq<char>>, depth: nat) -> (steps:
    nat)
    requires
        forall|k: int| 0 <= k < roots.len() ==> fs.fits(#[trigger] roots[k], depth),
    ensures
        ({
            let (first, asked) = beginning(rule, roots).step(EventView::Resume);
            let (last, request) = first.drive(asked, fs, steps);
            &&& request == ActionView::Finished
            &&& last.results == first_of_each_path(fs.found_in_all(rule, roots, depth))
            &&& distinct_paths(last.results)
            &&& last.stack.len() == 0
        }),
{
    let start = beginning(rule, roots);
    assert(start.absorb(EventView::Resume) == start);
    assert forall|k: int| 0 <= k < start.stack.len() implies fs.item_fits(
        #[trigger] start.stack[k],
        depth,
    ) by {
        assert(fs.fits(roots[roots.len() - 1 - k], depth));
    }
    let steps = start.lemma_stack_done(fs, roots.len(), depth);
    assert(start.stack.skip(0) =~= start.stack);
    fs.lemma_stacked_roots(rule, roots, depth);
    let found = fs.found_in_all(rule, roots, depth);
    let end = start.settled(roots.len() as int, found);
    assert(end.stack =~= Seq::<PendingView>::empty());
    assert(end.results == first_of_each_path(found));
    lemma_entered_distinct(Seq::empty(), found);
    assert(end.advance() == (end, ActionView::Finished));
    steps
}

} // verus!
