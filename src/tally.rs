use vstd::prelude::*;
use crate::matching::{
    Assignment,
    Matching,
    final_matching,
    match_all,
    matching_of,
    well_formed,
};

verus! {

/// The outcome of judging one column.
pub struct ColumnTally {
    /// For each note, the hit it is matched to and their deviation.
    pub notes: Vec<Option<Assignment>>,
    /// For each hit, the note it is matched to.
    pub hits: Vec<Option<usize>>,
    /// The deviations of the matched notes, in note order.
    pub matched_deviations: Vec<u64>,
    /// Notes left without a hit.
    pub num_misses: u64,
    /// Hits left without a note.
    pub num_stray_taps: u64,
    /// Matched notes, plus misses, plus stray taps.
    pub num_judged_notes: u64,
}

/// How many entries of `s` are empty.
pub open spec fn count_none<T>(s: Seq<Option<T>>) -> nat
    decreases s.len(),
{
    if s.len() == 0 {
        0
    } else {
        count_none(s.drop_last()) + if s.last() is None { 1nat } else { 0nat }
    }
}

/// The deviations of the matched notes of `s`, in order.
pub open spec fn matched_deviations(s: Seq<Option<Assignment>>) -> Seq<u64>
    decreases s.len(),
{
    if s.len() == 0 {
        Seq::empty()
    } else {
        matched_deviations(s.drop_last()) + match s.last() {
            Some(a) => seq![a.deviation],
            None => Seq::empty(),
        }
    }
}

/// `r` tallies the matching `m`.
pub open spec fn tallies(r: ColumnTally, m: Matching) -> bool {
    &&& r.notes@ == m.notes
    &&& r.hits@ == m.hits
    &&& r.matched_deviations@ == matched_deviations(m.notes)
    &&& r.num_misses == count_none(m.notes)
    &&& r.num_stray_taps == count_none(m.hits)
    &&& r.num_judged_notes == matched_deviations(m.notes).len() + count_none(m.notes) + count_none(
        m.hits,
    )
}

/// Every note is either matched or missed.
pub proof fn lemma_notes_split(s: Seq<Option<Assignment>>)
    ensures
        matched_deviations(s).len() + count_none(s) == s.len(),
    decreases s.len(),
{
    if s.len() > 0 {
        lemma_notes_split(s.drop_last());
    }
}

proof fn lemma_count_none_bound<T>(s: Seq<Option<T>>)
    ensures
        count_none(s) <= s.len(),
    decreases s.len(),
{
    if s.len() > 0 {
        lemma_count_none_bound(s.drop_last());
    }
}

/// Classifies every note and hit of a matching and counts the outcome.
pub fn tally_matching(notes: Vec<Option<Assignment>>, hits: Vec<Option<usize>>) -> (r: ColumnTally)
    requires
        notes.len() + hits.len() <= u64::MAX,
    ensures
        tallies(r, matching_of(notes@, hits@)),
{
    let mut matched: Vec<u64> = Vec::new();
    let mut num_misses: u64 = 0;
    for i in 0..notes.len()
        invariant
            notes.len() <= u64::MAX,
            matched@ == matched_deviations(notes@.take(i as int)),
            num_misses == count_none(notes@.take(i as int)),
    {
        proof {
            assert(notes@.take(i as int + 1).drop_last() =~= notes@.take(i as int));
            lemma_count_none_bound(notes@.take(i as int));
        }
        match notes[i] {
            Some(a) => {
                matched.push(a.deviation);
            },
            None => {
                num_misses = num_misses + 1;
            },
        }
    }
    let mut num_stray_taps: u64 = 0;
    for h in 0..hits.len()
        invariant
            hits.len() <= u64::MAX,
            num_stray_taps == count_none(hits@.take(h as int)),
    {
        proof {
            assert(hits@.take(h as int + 1).drop_last() =~= hits@.take(h as int));
            lemma_count_none_bound(hits@.take(h as int));
        }
        if hits[h].is_none() {
            num_stray_taps = num_stray_taps + 1;
        }
    }
    proof {
        assert(notes@.take(notes.len() as int) =~= notes@);
        assert(hits@.take(hits.len() as int) =~= hits@);
        lemma_notes_split(notes@);
        lemma_count_none_bound(hits@);
    }
    let num_judged_notes = matched.len() as u64 + num_misses + num_stray_taps;
    ColumnTally {
        notes,
        hits,
        matched_deviations: matched,
        num_misses,
        num_stray_taps,
        num_judged_notes,
    }
}

/// Matches the hits of one column to its notes and tallies the outcome.
pub fn column_rescore(note_times: &Vec<i64>, hit_times: &Vec<i64>, window: u64) -> (r: ColumnTally)
    requires
        note_times.len() + hit_times.len() <= u64::MAX,
    ensures
        tallies(r, final_matching(note_times@, hit_times@, window)),
        well_formed(matching_of(r.notes@, r.hits@), note_times@, hit_times@, window),
{
    let (notes, hits) = match_all(note_times, hit_times, window);
    tally_matching(notes, hits)
}

} // verus!
