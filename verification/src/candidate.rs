//! The record of one discovered file.

use vstd::prelude::*;

verus! {

/// One file that a scan found to be stale.
#[derive(Debug)]
pub struct ScanCandidate {
    /// Absolute path of the file: the key of the record within one scan.
    pub file_path: String,
    /// Base name of the file.
    pub file_name: String,
    /// Whether the file is selected for removal.
    pub should_delete: bool,
    /// Whole days between the last access and the scan.
    pub days_since_access: u64,
}

/// A candidate as plain values.
pub ghost struct CandidateView {
    pub file_path: Seq<char>,
    pub file_name: Seq<char>,
    pub should_delete: bool,
    pub days_since_access: u64,
}

impl View for ScanCandidate {
    type V = CandidateView;

    open spec fn view(&self) -> CandidateView {
        CandidateView {
            file_path: self.file_path@,
            file_name: self.file_name@,
            should_delete: self.should_delete,
            days_since_access: self.days_since_access,
        }
    }
}

/// A collection of candidates as plain values.
pub open spec fn views(candidates: Seq<ScanCandidate>) -> Seq<CandidateView> {
    Seq::new(candidates.len(), |k: int| candidates[k]@)
}

/// Some record of `records` has the path `path`.
pub open spec fn has_path(records: Seq<CandidateView>, path: Seq<char>) -> bool {
    exists|k: int| 0 <= k < records.len() && (#[trigger] records[k]).file_path == path
}

/// No two records have the same path: the path is the key of a record.
pub open spec fn distinct_paths(records: Seq<CandidateView>) -> bool {
    forall|i: int, j: int|
        0 <= i < j < records.len() ==> (#[trigger] records[i]).file_path
            != (#[trigger] records[j]).file_path
}

/// The collection `have` after the records of `more` have been entered in
/// their order, each only where no record had its path yet.
pub open spec fn entered(have: Seq<CandidateView>, more: Seq<CandidateView>) -> Seq<
    CandidateView,
>
    decreases more.len(),
{
    if more.len() == 0 {
        have
    } else {
        let before = entered(have, more.drop_last());
        if has_path(before, more.last().file_path) {
            before
        } else {
            before.push(more.last())
        }
    }
}

/// The records without those whose path came earlier: of the records of one
/// path the first stays.
pub open spec fn first_of_each_path(records: Seq<CandidateView>) -> Seq<CandidateView> {
    entered(Seq::empty(), records)
}

/// Entering one lot of records and then another is entering them all.
pub proof fn lemma_entered_in_two_lots(
    have: Seq<CandidateView>,
    first: Seq<CandidateView>,
    second: Seq<CandidateView>,
)
    ensures
        entered(entered(have, first), second) == entered(have, first + second),
    decreases second.len(),
{
    if second.len() == 0 {
        assert(first + second =~= first);
    } else {
        lemma_entered_in_two_lots(have, first, second.drop_last());
        assert((first + second).drop_last() =~= first + second.drop_last());
        assert((first + second).last() == second.last());
    }
}

/// Entering records keeps the paths distinct, keeps what was there in front,
/// and adds only records of `more`.
pub proof fn lemma_entered_distinct(have: Seq<CandidateView>, more: Seq<CandidateView>)
    requires
        distinct_paths(have),
    ensures
        distinct_paths(entered(have, more)),
        have.len() <= entered(have, more).len() <= have.len() + more.len(),
        entered(have, more).take(have.len() as int) == have,
        forall|k: int|
            have.len() <= k < entered(have, more).len() ==> more.contains(
                #[trigger] entered(have, more)[k],
            ),
        forall|k: int|
            0 <= k < more.len() ==> has_path(entered(have, more), (#[trigger] more[k]).file_path),
    decreases more.len(),
{
    let all = entered(have, more);
    if more.len() == 0 {
        assert(have.take(have.len() as int) =~= have);
    } else {
        let front = more.drop_last();
        let before = entered(have, front);
        lemma_entered_distinct(have, front);
        assert(all.take(have.len() as int) =~= before.take(have.len() as int));
        assert forall|k: int| have.len() <= k < all.len() implies more.contains(
            #[trigger] all[k],
        ) by {
            if k < before.len() {
                assert(front.contains(before[k]));
                let m = choose|m: int| 0 <= m < front.len() && front[m] == before[k];
                assert(more[m] == all[k]);
            } else {
                assert(more[more.len() - 1] == all[k]);
            }
        }
        assert forall|k: int| 0 <= k < more.len() implies has_path(
            all,
            (#[trigger] more[k]).file_path,
        ) by {
            if k < front.len() {
                assert(front[k] == more[k]);
                assert(has_path(before, front[k].file_path));
                let m = choose|m: int|
                    0 <= m < before.len() && (#[trigger] before[m]).file_path
                        == front[k].file_path;
                assert(all[m] == before[m]);
            } else if has_path(before, more.last().file_path) {
            } else {
                assert(all[all.len() - 1].file_path == more[k].file_path);
            }
        }
        if !has_path(before, more.last().file_path) {
            assert forall|i: int, j: int| 0 <= i < j < all.len() implies (#[trigger] all[i]).file_path
                != (#[trigger] all[j]).file_path by {
                if j < before.len() {
                    assert(all[i] == before[i] && all[j] == before[j]);
                } else {
                    assert(all[i] == before[i]);
                }
            }
        }
    }
}

impl ScanCandidate {
    /// A freshly discovered file: selected, as every discovery is.
    pub fn new(file_path: String, file_name: String, days_since_access: u64) -> (c: ScanCandidate)
        ensures
            c@ == (CandidateView {
                file_path: file_path@,
                file_name: file_name@,
                should_delete: true,
                days_since_access,
            }),
    {
        ScanCandidate { file_path, file_name, should_delete: true, days_since_access }
    }
}

/// Whether some record of `records` has the path `path`.
pub fn holds_path(records: &Vec<ScanCandidate>, path: &String) -> (found: bool)
    ensures
        found == has_path(views(records@), path@),
{
    let mut k: usize = 0;
    while k < records.len()
        invariant
            k <= records@.len(),
            forall|j: int| 0 <= j < k ==> (#[trigger] views(records@)[j]).file_path != path@,
        decreases records@.len() - k,
    {
        if records[k].file_path == *path {
            assert(views(records@)[k as int].file_path == path@);
            return true;
        }
        k += 1;
    }
    false
}

} // verus!
