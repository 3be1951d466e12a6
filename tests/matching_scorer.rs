use rescore::{Assignment, ColumnTally, MatchingScorer, best_note_index, column_rescore, deviation_between};

const SECOND: i64 = 1_000_000_000;
const MS: i64 = 1_000_000;
const BAD_WINDOW: u64 = 90_000_000;

fn at_ms(ms: i64) -> i64 {
    ms * MS
}

fn judge(notes: &[i64], hits: &[i64]) -> ColumnTally {
    MatchingScorer::evaluate(&notes.to_vec(), &hits.to_vec(), BAD_WINDOW)
}

fn assert_consistent(t: &ColumnTally, notes: &[i64], hits: &[i64]) {
    for (i, a) in t.notes.iter().enumerate() {
        if let Some(a) = a {
            assert_eq!(t.hits[a.hit], Some(i));
            assert_eq!(a.deviation, (notes[i] - hits[a.hit]).unsigned_abs());
            assert!(a.deviation <= BAD_WINDOW);
        }
    }
    for (h, n) in t.hits.iter().enumerate() {
        if let Some(n) = n {
            assert_eq!(t.notes[*n].unwrap().hit, h);
        }
    }
    assert_eq!(t.num_judged_notes, notes.len() as u64 + t.num_stray_taps);
}

#[test]
fn simple_unique_match() {
    let notes = [SECOND];
    let hits = [at_ms(1001)];
    let t = judge(&notes, &hits);
    assert_eq!(t.notes, vec![Some(Assignment { hit: 0, deviation: 1_000_000 })]);
    assert_eq!(t.hits, vec![Some(0)]);
    assert_eq!(t.matched_deviations, vec![1_000_000]);
    assert_eq!(t.num_misses, 0);
    assert_eq!(t.num_stray_taps, 0);
    assert_eq!(t.num_judged_notes, 1);
    assert_consistent(&t, &notes, &hits);
}

#[test]
fn stray_beyond_tolerance() {
    let notes = [SECOND];
    let hits = [at_ms(1200)];
    let t = judge(&notes, &hits);
    assert_eq!(t.notes, vec![None]);
    assert_eq!(t.hits, vec![None]);
    assert!(t.matched_deviations.is_empty());
    assert_eq!(t.num_misses, 1);
    assert_eq!(t.num_stray_taps, 1);
    // the missed note and the stray tap are each judged, and each charged a miss weight
    assert_eq!(t.num_judged_notes, 2);
    assert_eq!(t.num_misses + t.num_stray_taps, 2);
}

#[test]
fn competition_without_cascade() {
    let notes = [SECOND];
    let hits = [at_ms(1001), at_ms(1050)];
    let t = judge(&notes, &hits);
    assert_eq!(t.notes, vec![Some(Assignment { hit: 0, deviation: 1_000_000 })]);
    assert_eq!(t.hits, vec![Some(0), None]);
    assert_eq!(t.num_misses, 0);
    assert_eq!(t.num_stray_taps, 1);
    assert_eq!(t.num_judged_notes, 2);
    assert_consistent(&t, &notes, &hits);
}

#[test]
fn eviction_cascade_in_given_order() {
    let notes = vec![SECOND];
    let hits = vec![at_ms(1050), at_ms(1001)];
    let t = column_rescore(&notes, &hits, BAD_WINDOW);
    assert_eq!(t.notes, vec![Some(Assignment { hit: 1, deviation: 1_000_000 })]);
    assert_eq!(t.hits, vec![None, Some(0)]);
    assert_eq!(t.num_stray_taps, 1);
    assert_eq!(t.num_judged_notes, 2);
    assert_consistent(&t, &notes, &hits);
}

#[test]
fn eviction_cascade_with_sorted_hits() {
    let notes = [SECOND];
    let hits = [at_ms(950), at_ms(999)];
    let t = judge(&notes, &hits);
    assert_eq!(t.notes, vec![Some(Assignment { hit: 1, deviation: 1_000_000 })]);
    assert_eq!(t.hits, vec![None, Some(0)]);
    assert_eq!(t.num_stray_taps, 1);
}

#[test]
fn evicted_hit_moves_to_another_note() {
    let notes = vec![SECOND, at_ms(1080)];
    let hits = vec![at_ms(1040), at_ms(1002)];
    let t = column_rescore(&notes, &hits, BAD_WINDOW);
    assert_eq!(
        t.notes,
        vec![
            Some(Assignment { hit: 1, deviation: 2_000_000 }),
            Some(Assignment { hit: 0, deviation: 40_000_000 }),
        ]
    );
    assert_eq!(t.hits, vec![Some(1), Some(0)]);
    assert_eq!(t.matched_deviations, vec![2_000_000, 40_000_000]);
    assert_eq!(t.num_misses, 0);
    assert_eq!(t.num_stray_taps, 0);
    assert_eq!(t.num_judged_notes, 2);
    assert_consistent(&t, &notes, &hits);
}

#[test]
fn equal_hits_do_not_evict() {
    let notes = [SECOND];
    let hits = [at_ms(1010), at_ms(1010)];
    let t = judge(&notes, &hits);
    assert_eq!(t.hits, vec![Some(0), None]);
}

#[test]
fn near_equal_hits_do_not_evict() {
    // the later hit is closer, but only by the margin itself
    let notes = [SECOND];
    let hits = [SECOND - 10_000, SECOND + 9_000];
    let t = judge(&notes, &hits);
    assert_eq!(t.hits, vec![Some(0), None]);
    // closer by one nanosecond more than the margin: it takes over
    let hits = [SECOND - 10_000, SECOND + 8_999];
    let t = judge(&notes, &hits);
    assert_eq!(t.hits, vec![None, Some(0)]);
}

#[test]
fn ties_go_to_the_earlier_note() {
    let notes = [at_ms(960), at_ms(1040)];
    let hits = [SECOND];
    let t = judge(&notes, &hits);
    assert_eq!(t.notes[0], Some(Assignment { hit: 0, deviation: 40_000_000 }));
    assert_eq!(t.notes[1], None);
    assert_eq!(t.num_misses, 1);
}

#[test]
fn window_edge_is_inclusive() {
    let notes = [SECOND];
    let t = judge(&notes, &[SECOND + BAD_WINDOW as i64]);
    assert_eq!(t.hits, vec![Some(0)]);
    let t = judge(&notes, &[SECOND + BAD_WINDOW as i64 + 1]);
    assert_eq!(t.hits, vec![None]);
}

#[test]
fn empty_inputs() {
    let t = judge(&[], &[]);
    assert!(t.notes.is_empty() && t.hits.is_empty());
    assert_eq!(t.num_judged_notes, 0);
    let t = judge(&[SECOND, 2 * SECOND], &[]);
    assert_eq!(t.num_misses, 2);
    assert_eq!(t.num_judged_notes, 2);
    let t = judge(&[], &[SECOND, 2 * SECOND, 3 * SECOND]);
    assert_eq!(t.num_stray_taps, 3);
    assert_eq!(t.num_judged_notes, 3);
}

#[test]
fn burst_near_one_note() {
    let notes = [SECOND, 2 * SECOND];
    let hits = [at_ms(970), at_ms(985), at_ms(998), at_ms(1010), at_ms(1030), at_ms(2005)];
    let t = judge(&notes, &hits);
    assert_eq!(t.notes[0], Some(Assignment { hit: 2, deviation: 2_000_000 }));
    assert_eq!(t.notes[1], Some(Assignment { hit: 5, deviation: 5_000_000 }));
    assert_eq!(t.num_stray_taps, 4);
    assert_eq!(t.num_judged_notes, 6);
    assert_consistent(&t, &notes, &hits);
}

#[test]
fn judging_twice_gives_the_same_outcome() {
    let notes = [SECOND, at_ms(1100), at_ms(1150)];
    let hits = [at_ms(1020), at_ms(1090), at_ms(1120), at_ms(1160)];
    let a = judge(&notes, &hits);
    let b = judge(&notes, &hits);
    assert_eq!(a.notes, b.notes);
    assert_eq!(a.hits, b.hits);
    assert_eq!(a.matched_deviations, b.matched_deviations);
    assert_eq!(a.num_judged_notes, b.num_judged_notes);
    assert_consistent(&a, &notes, &hits);
}

#[test]
fn deviation_of_extreme_times() {
    assert_eq!(deviation_between(i64::MIN, i64::MAX), u64::MAX);
    assert_eq!(deviation_between(i64::MAX, i64::MIN), u64::MAX);
    assert_eq!(deviation_between(-5, 7), 12);
    assert_eq!(deviation_between(7, 7), 0);
}

#[test]
fn best_note_skips_better_held_notes() {
    let notes = vec![SECOND, at_ms(1030)];
    let held = vec![Some(Assignment { hit: 0, deviation: 1_000_000 }), None];
    assert_eq!(best_note_index(&notes, &held, at_ms(1005), BAD_WINDOW), Some(1));
    let held = vec![Some(Assignment { hit: 0, deviation: 20_000_000 }), None];
    assert_eq!(best_note_index(&notes, &held, at_ms(1005), BAD_WINDOW), Some(0));
    assert_eq!(best_note_index(&notes, &held, at_ms(2000), BAD_WINDOW), None);
}
