use vstd::prelude::*;
use crate::matching::{
    Matching,
    TAKEOVER_MARGIN,
    claim,
    deviation,
    final_matching,
    is_best,
    best_note,
    lemma_settle_first_well_formed,
    settle,
    well_formed,
};
use crate::tally::{ColumnTally, count_none, lemma_notes_split, tallies};

verus! {

/// Once all hits have settled, the matching pairs notes and hits one to one:
/// no two notes hold the same hit, no two hits name the same note, and each
/// side of a pair names the other.
pub proof fn matching_is_partial_bijection(note_times: Seq<i64>, hit_times: Seq<i64>, window: u64)
    requires
        note_times.len() <= usize::MAX,
        hit_times.len() <= usize::MAX,
    ensures
        ({
            let m = final_matching(note_times, hit_times, window);
            &&& forall|i: int, j: int|
                0 <= i < j < m.notes.len() && m.notes[i] is Some && m.notes[j] is Some
                    ==> m.notes[i]->Some_0.hit != m.notes[j]->Some_0.hit
            &&& forall|g: int, h: int|
                0 <= g < h < m.hits.len() && m.hits[g] is Some && m.hits[h] is Some
                    ==> m.hits[g]->Some_0 != m.hits[h]->Some_0
            &&& forall|i: int|
                0 <= i < m.notes.len() && m.notes[i] is Some ==> m.hits[m.notes[i]->Some_0.hit as int]
                    == Some(i as usize)
            &&& forall|h: int|
                0 <= h < m.hits.len() && m.hits[h] is Some ==> m.notes[m.hits[h]->Some_0 as int]
                    is Some && m.notes[m.hits[h]->Some_0 as int]->Some_0.hit == h
        }),
{
    let m = final_matching(note_times, hit_times, window);
    lemma_settle_first_well_formed(note_times, hit_times, window, hit_times.len());
    assert forall|i: int, j: int|
        0 <= i < j < m.notes.len() && m.notes[i] is Some && m.notes[j] is Some
            implies m.notes[i]->Some_0.hit != m.notes[j]->Some_0.hit by {
        assert(m.hits[m.notes[i]->Some_0.hit as int] == Some(i as usize));
        assert(m.hits[m.notes[j]->Some_0.hit as int] == Some(j as usize));
    }
    assert forall|g: int, h: int|
        0 <= g < h < m.hits.len() && m.hits[g] is Some && m.hits[h] is Some
            implies m.hits[g]->Some_0 != m.hits[h]->Some_0 by {
        assert(m.notes[m.hits[g]->Some_0 as int]->Some_0.hit == g);
        assert(m.notes[m.hits[h]->Some_0 as int]->Some_0.hit == h);
    }
}

/// Once all hits have settled, every recorded match lies within the window,
/// and its recorded deviation is the true distance of the pair.
pub proof fn matches_within_window(note_times: Seq<i64>, hit_times: Seq<i64>, window: u64)
    requires
        note_times.len() <= usize::MAX,
        hit_times.len() <= usize::MAX,
    ensures
        ({
            let m = final_matching(note_times, hit_times, window);
            forall|i: int|
                0 <= i < m.notes.len() && m.notes[i] is Some ==> {
                    let a = m.notes[i]->Some_0;
                    &&& a.deviation <= window
                    &&& a.deviation == deviation(note_times[i] as int, hit_times[a.hit as int] as int)
                }
        }),
{
    let m = final_matching(note_times, hit_times, window);
    lemma_settle_first_well_formed(note_times, hit_times, window, hit_times.len());
    assert(well_formed(m, note_times, hit_times, window));
    assert forall|i: int| 0 <= i < m.notes.len() && m.notes[i] is Some implies {
        let a = m.notes[i]->Some_0;
        &&& a.deviation <= window
        &&& a.deviation == deviation(note_times[i] as int, hit_times[a.hit as int] as int)
    } by {
        assert(m.notes[i] is Some);
    }
}

/// The judged count is the number of notes plus the number of stray taps.
pub proof fn judged_count_identity(r: ColumnTally, m: Matching)
    requires
        tallies(r, m),
    ensures
        r.num_judged_notes == m.notes.len() + r.num_stray_taps,
{
    lemma_notes_split(m.notes);
}

/// Judging the same column twice gives the same outcome.
pub proof fn rescoring_is_deterministic(
    note_times: Seq<i64>,
    hit_times: Seq<i64>,
    window: u64,
    r1: ColumnTally,
    r2: ColumnTally,
)
    requires
        tallies(r1, final_matching(note_times, hit_times, window)),
        tallies(r2, final_matching(note_times, hit_times, window)),
    ensures
        r1.notes@ == r2.notes@,
        r1.hits@ == r2.hits@,
        r1.matched_deviations@ == r2.matched_deviations@,
        r1.num_misses == r2.num_misses,
        r1.num_stray_taps == r2.num_stray_taps,
        r1.num_judged_notes == r2.num_judged_notes,
{
}

/// While a hit settles, a matched note never loses its match, and it changes
/// hands only to a hit closer than its current one by more than the margin:
/// equal or nearly equal deviations never evict.
pub proof fn eviction_needs_margin(
    m: Matching,
    note_times: Seq<i64>,
    hit_times: Seq<i64>,
    window: u64,
    h: usize,
)
    ensures
        forall|i: int|
            #![trigger m.notes[i]]
            0 <= i < m.notes.len() && m.notes[i] is Some ==> {
                let a = m.notes[i]->Some_0;
                let b = settle(m, note_times, hit_times, window, h).notes[i];
                &&& b is Some
                &&& b->Some_0 == a || b->Some_0.deviation + TAKEOVER_MARGIN < a.deviation
            },
    decreases crate::matching::potential(m.notes, window),
{
    let t = hit_times[h as int];
    if let Some(k) = best_note(note_times, m.notes, t, window) {
        assert(is_best(note_times, m.notes, t, window, k));
        crate::matching::lemma_claim_lowers(m, note_times, hit_times, window, h, k);
        let c = claim(m, note_times, hit_times, h, k);
        assert(c.notes.len() == m.notes.len());
        if let Some(prev) = m.notes[k] {
            eviction_needs_margin(c, note_times, hit_times, window, prev.hit);
            assert forall|i: int|
                #![trigger m.notes[i]]
                0 <= i < m.notes.len() && m.notes[i] is Some implies {
                    let a = m.notes[i]->Some_0;
                    let b = settle(m, note_times, hit_times, window, h).notes[i];
                    &&& b is Some
                    &&& b->Some_0 == a || b->Some_0.deviation + TAKEOVER_MARGIN < a.deviation
                } by {
                assert(c.notes[i] is Some);
            }
        }
    }
}

} // verus!
