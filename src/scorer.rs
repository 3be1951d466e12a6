use vstd::prelude::*;
use crate::matching::{final_matching, matching_of, well_formed};
use crate::tally::{ColumnTally, column_rescore, tallies};

verus! {

/// Timestamps in non-decreasing order.
pub open spec fn is_sorted(s: Seq<i64>) -> bool {
    forall|i: int, j: int| 0 <= i < j < s.len() ==> s[i] <= s[j]
}

/// Scoring system that assigns hits to notes by searching for the best
/// mapping between the two, rather than taking notes and hits as they come.
///
/// This holds up against bursts of presses near one note; and since a stray
/// tap, matched to no note, is judged like a miss, mashing gains nothing.
pub struct MatchingScorer;

impl MatchingScorer {
    /// Judges one column: notes at `note_times`, presses at `hit_times` (in
    /// non-decreasing order), matched only within `bad_window` nanoseconds.
    pub fn evaluate(note_times: &Vec<i64>, hit_times: &Vec<i64>, bad_window: u64) -> (r: ColumnTally)
        requires
            is_sorted(hit_times@),
            note_times.len() + hit_times.len() <= u64::MAX,
        ensures
            tallies(r, final_matching(note_times@, hit_times@, bad_window)),
            well_formed(matching_of(r.notes@, r.hits@), note_times@, hit_times@, bad_window),
    {
        column_rescore(note_times, hit_times, bad_window)
    }
}

} // verus!
