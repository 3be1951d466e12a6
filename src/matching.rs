use vstd::prelude::*;

verus! {

/// A note must be claimed by a deviation smaller than its current one by more
/// than this many nanoseconds, so that two equally good hits never keep
/// evicting each other.
pub const TAKEOVER_MARGIN: u64 = 1000;

/// The hit that a note is matched to, and the distance between the two.
#[derive(Clone, Copy, Debug, PartialEq, Eq, Structural)]
pub struct Assignment {
    pub hit: usize,
    pub deviation: u64,
}

/// The state of the matching: for each note the hit it holds, for each hit
/// the note it is matched to.
pub struct Matching {
    pub notes: Seq<Option<Assignment>>,
    pub hits: Seq<Option<usize>>,
}

/// Absolute distance between two timestamps.
pub open spec fn deviation(a: int, b: int) -> int {
    if a >= b { a - b } else { b - a }
}

/// Note `i` could be claimed by a hit at time `t`: it lies within the window,
/// and it is free or its current hit is worse by more than the margin.
pub open spec fn is_candidate(
    note_times: Seq<i64>,
    notes: Seq<Option<Assignment>>,
    t: i64,
    window: u64,
    i: int,
) -> bool {
    let d = deviation(note_times[i] as int, t as int);
    &&& 0 <= i < note_times.len()
    &&& i < notes.len()
    &&& d <= window
    &&& match notes[i] {
        None => true,
        Some(a) => d + TAKEOVER_MARGIN < a.deviation,
    }
}

/// Note `i` is the candidate closest to `t`; among equally close candidates,
/// the first one.
pub open spec fn is_best(
    note_times: Seq<i64>,
    notes: Seq<Option<Assignment>>,
    t: i64,
    window: u64,
    i: int,
) -> bool {
    &&& is_candidate(note_times, notes, t, window, i)
    &&& forall|j: int|
        #![trigger is_candidate(note_times, notes, t, window, j)]
        is_candidate(note_times, notes, t, window, j) ==> {
            &&& (j < i ==> deviation(note_times[j] as int, t as int) > deviation(
                note_times[i] as int,
                t as int,
            ))
            &&& (i < j ==> deviation(note_times[i] as int, t as int) <= deviation(
                note_times[j] as int,
                t as int,
            ))
        }
}

/// The note that a hit at time `t` claims, if any.
pub open spec fn best_note(
    note_times: Seq<i64>,
    notes: Seq<Option<Assignment>>,
    t: i64,
    window: u64,
) -> Option<int> {
    if exists|i: int| is_best(note_times, notes, t, window, i) {
        Some(choose|i: int| is_best(note_times, notes, t, window, i))
    } else {
        None
    }
}

proof fn lemma_best_unique(
    note_times: Seq<i64>,
    notes: Seq<Option<Assignment>>,
    t: i64,
    window: u64,
    i: int,
)
    requires
        is_best(note_times, notes, t, window, i),
    ensures
        best_note(note_times, notes, t, window) == Some(i),
{
    let k = choose|k: int| is_best(note_times, notes, t, window, k);
    assert(is_candidate(note_times, notes, t, window, k));
    assert(is_candidate(note_times, notes, t, window, i));
    if k < i {
    } else if i < k {
    }
}

/// Computes `deviation(a, b)` on machine integers.
pub fn deviation_between(a: i64, b: i64) -> (r: u64)
    ensures
        r == deviation(a as int, b as int),
{
    if a >= b {
        (a as i128 - b as i128) as u64
    } else {
        (b as i128 - a as i128) as u64
    }
}

/// Scans the notes for the one that a hit at `t` claims.
pub fn best_note_index(
    note_times: &Vec<i64>,
    notes: &Vec<Option<Assignment>>,
    t: i64,
    window: u64,
) -> (r: Option<usize>)
    requires
        note_times.len() == notes.len(),
    ensures
        match r {
            Some(i) => best_note(note_times@, notes@, t, window) == Some(i as int),
            None => best_note(note_times@, notes@, t, window) == None::<int>,
        },
{
    let mut best: Option<usize> = None;
    let mut best_dev: u64 = 0;
    let n = note_times.len();
    for i in 0..n
        invariant
            n == note_times.len(),
            n == notes.len(),
            match best {
                Some(b) => {
                    &&& b < i
                    &&& is_candidate(note_times@, notes@, t, window, b as int)
                    &&& best_dev == deviation(note_times@[b as int] as int, t as int)
                    &&& forall|j: int|
                        #![trigger is_candidate(note_times@, notes@, t, window, j)]
                        0 <= j < i && is_candidate(note_times@, notes@, t, window, j) ==> {
                            &&& (j < b ==> deviation(note_times@[j] as int, t as int) > best_dev)
                            &&& (b < j ==> best_dev <= deviation(note_times@[j] as int, t as int))
                        }
                },
                None => forall|j: int|
                    #![trigger is_candidate(note_times@, notes@, t, window, j)]
                    0 <= j < i ==> !is_candidate(note_times@, notes@, t, window, j),
            },
    {
        let d = deviation_between(note_times[i], t);
        let eligible = d <= window && match notes[i] {
            None => true,
            Some(a) => a.deviation > d && a.deviation - d > TAKEOVER_MARGIN,
        };
        assert(eligible == is_candidate(note_times@, notes@, t, window, i as int));
        if eligible {
            let better = match best {
                None => true,
                Some(_) => d < best_dev,
            };
            if better {
                best = Some(i);
                best_dev = d;
            }
        }
    }
    match best {
        Some(b) => {
            proof {
                lemma_best_unique(note_times@, notes@, t, window, b as int);
            }
        },
        None => {
            assert(!exists|i: int| is_best(note_times@, notes@, t, window, i));
        },
    }
    best
}


/// What a note contributes to the measure that every claim lowers: its
/// deviation when matched, one more than the window when free.
pub open spec fn weight(a: Option<Assignment>, window: u64) -> nat {
    match a {
        None => window as nat + 1,
        Some(x) => x.deviation as nat,
    }
}

pub open spec fn potential(notes: Seq<Option<Assignment>>, window: u64) -> nat
    decreases notes.len(),
{
    if notes.len() == 0 {
        0
    } else {
        potential(notes.drop_last(), window) + weight(notes.last(), window)
    }
}

proof fn lemma_potential_update(
    notes: Seq<Option<Assignment>>,
    window: u64,
    i: int,
    v: Option<Assignment>,
)
    requires
        0 <= i < notes.len(),
    ensures
        potential(notes.update(i, v), window) + weight(notes[i], window) == potential(notes, window)
            + weight(v, window),
    decreases notes.len(),
{
    let u = notes.update(i, v);
    if i == notes.len() - 1 {
        assert(u.drop_last() =~= notes.drop_last());
    } else {
        lemma_potential_update(notes.drop_last(), window, i, v);
        assert(u.drop_last() =~= notes.drop_last().update(i, v));
    }
}

/// Hit `h` takes note `i`; the hit that held the note, if any, is set loose.
pub open spec fn claim(
    m: Matching,
    note_times: Seq<i64>,
    hit_times: Seq<i64>,
    h: usize,
    i: int,
) -> Matching {
    let d = deviation(note_times[i] as int, hit_times[h as int] as int);
    let loose = match m.notes[i] {
        Some(prev) => m.hits.update(prev.hit as int, None),
        None => m.hits,
    };
    Matching {
        notes: m.notes.update(i, Some(Assignment { hit: h, deviation: d as u64 })),
        hits: loose.update(h as int, Some(i as usize)),
    }
}

/// The matching after hit `h` has searched for a note, together with every
/// search that the evictions it causes set off.
pub open spec fn settle(
    m: Matching,
    note_times: Seq<i64>,
    hit_times: Seq<i64>,
    window: u64,
    h: usize,
) -> Matching
    decreases potential(m.notes, window),
    via settle_decreases
{
    match best_note(note_times, m.notes, hit_times[h as int], window) {
        None => Matching { notes: m.notes, hits: m.hits.update(h as int, None) },
        Some(i) => match m.notes[i] {
            None => claim(m, note_times, hit_times, h, i),
            Some(prev) => settle(
                claim(m, note_times, hit_times, h, i),
                note_times,
                hit_times,
                window,
                prev.hit,
            ),
        },
    }
}

pub proof fn lemma_claim_lowers(
    m: Matching,
    note_times: Seq<i64>,
    hit_times: Seq<i64>,
    window: u64,
    h: usize,
    i: int,
)
    requires
        is_candidate(note_times, m.notes, hit_times[h as int], window, i),
    ensures
        potential(claim(m, note_times, hit_times, h, i).notes, window) < potential(m.notes, window),
{
    let d = deviation(note_times[i] as int, hit_times[h as int] as int);
    lemma_potential_update(m.notes, window, i, Some(Assignment { hit: h, deviation: d as u64 }));
}

#[via_fn]
proof fn settle_decreases(
    m: Matching,
    note_times: Seq<i64>,
    hit_times: Seq<i64>,
    window: u64,
    h: usize,
) {
    let t = hit_times[h as int];
    if let Some(i) = best_note(note_times, m.notes, t, window) {
        assert(is_best(note_times, m.notes, t, window, i));
        lemma_claim_lowers(m, note_times, hit_times, window, h, i);
    }
}


pub open spec fn matching_of(notes: Seq<Option<Assignment>>, hits: Seq<Option<usize>>) -> Matching {
    Matching { notes, hits }
}

/// Back-references agree both ways, every recorded deviation is the true
/// distance of the pair, and no pair lies beyond the window.
pub open spec fn well_formed(
    m: Matching,
    note_times: Seq<i64>,
    hit_times: Seq<i64>,
    window: u64,
) -> bool {
    &&& m.notes.len() == note_times.len()
    &&& m.notes.len() <= usize::MAX
    &&& m.hits.len() == hit_times.len()
    &&& forall|i: int|
        #![trigger m.notes[i]]
        0 <= i < m.notes.len() && m.notes[i] is Some ==> {
            let a = m.notes[i]->Some_0;
            &&& a.hit < m.hits.len()
            &&& m.hits[a.hit as int] == Some(i as usize)
            &&& a.deviation == deviation(note_times[i] as int, hit_times[a.hit as int] as int)
            &&& a.deviation <= window
        }
    &&& forall|h: int|
        #![trigger m.hits[h]]
        0 <= h < m.hits.len() && m.hits[h] is Some ==> {
            let i = m.hits[h]->Some_0;
            &&& i < m.notes.len()
            &&& m.notes[i as int] is Some
            &&& m.notes[i as int]->Some_0.hit == h
        }
}

proof fn lemma_claim_well_formed(
    m: Matching,
    note_times: Seq<i64>,
    hit_times: Seq<i64>,
    window: u64,
    h: usize,
    i: int,
)
    requires
        well_formed(m, note_times, hit_times, window),
        h < hit_times.len(),
        m.hits[h as int] is None,
        is_candidate(note_times, m.notes, hit_times[h as int], window, i),
    ensures
        well_formed(claim(m, note_times, hit_times, h, i), note_times, hit_times, window),
        m.notes[i] is Some ==> {
            let p = m.notes[i]->Some_0.hit;
            &&& p != h
            &&& p < hit_times.len()
            &&& m.hits[p as int] is Some
            &&& claim(m, note_times, hit_times, h, i).hits[p as int] is None
        },
        forall|g: int|
            #![trigger m.hits[g]]
            0 <= g < m.hits.len() && g != h && m.hits[g] is None ==> claim(
                m,
                note_times,
                hit_times,
                h,
                i,
            ).hits[g] is None,
{
    assert(m.notes[i] is Some ==> m.hits[m.notes[i]->Some_0.hit as int] == Some(i as usize));
    let c = claim(m, note_times, hit_times, h, i);
    let d = deviation(note_times[i] as int, hit_times[h as int] as int);
    let loose = match m.notes[i] {
        Some(prev) => m.hits.update(prev.hit as int, None),
        None => m.hits,
    };
    assert(c.hits == loose.update(h as int, Some(i as usize)));
    assert(c.notes == m.notes.update(i, Some(Assignment { hit: h, deviation: d as u64 })));
    if let Some(prev) = m.notes[i] {
        assert(m.hits[prev.hit as int] == Some(i as usize));
    }
    assert forall|j: int| #![trigger c.notes[j]] 0 <= j < c.notes.len() && c.notes[j] is Some implies {
        let a = c.notes[j]->Some_0;
        &&& a.hit < c.hits.len()
        &&& c.hits[a.hit as int] == Some(j as usize)
        &&& a.deviation == deviation(note_times[j] as int, hit_times[a.hit as int] as int)
        &&& a.deviation <= window
    } by {
        if j != i {
            let a = m.notes[j]->Some_0;
            assert(m.notes[j] is Some);
            assert(m.hits[a.hit as int] == Some(j as usize));
            assert(a.hit != h);
            assert(loose[a.hit as int] == Some(j as usize));
        } else {
            assert(c.hits[h as int] == Some(i as usize));
        }
    }
    assert forall|g: int| #![trigger c.hits[g]] 0 <= g < c.hits.len() && c.hits[g] is Some implies {
        let k = c.hits[g]->Some_0;
        &&& k < c.notes.len()
        &&& c.notes[k as int] is Some
        &&& c.notes[k as int]->Some_0.hit == g
    } by {
        if g != h {
            assert(loose[g] is Some);
            assert(m.hits[g] is Some);
            let k = m.hits[g]->Some_0;
            assert(m.notes[k as int] is Some);
            if k as int == i {
                assert(m.notes[i]->Some_0.hit == g);
                assert(loose[g] is None);
            }
        }
    }
}

/// `settle` keeps the matching well formed, and sets no hit but `h` that was
/// unmatched before.
proof fn lemma_settle_well_formed(
    m: Matching,
    note_times: Seq<i64>,
    hit_times: Seq<i64>,
    window: u64,
    h: usize,
)
    requires
        well_formed(m, note_times, hit_times, window),
        h < hit_times.len(),
        m.hits[h as int] is None,
    ensures
        well_formed(settle(m, note_times, hit_times, window, h), note_times, hit_times, window),
        forall|g: int|
            #![trigger m.hits[g]]
            0 <= g < m.hits.len() && g != h && m.hits[g] is None ==> settle(
                m,
                note_times,
                hit_times,
                window,
                h,
            ).hits[g] is None,
    decreases potential(m.notes, window),
{
    let t = hit_times[h as int];
    match best_note(note_times, m.notes, t, window) {
        None => {
            let r = settle(m, note_times, hit_times, window, h);
            assert(r.hits =~= m.hits);
        },
        Some(i) => {
            assert(is_best(note_times, m.notes, t, window, i));
            lemma_claim_well_formed(m, note_times, hit_times, window, h, i);
            if let Some(prev) = m.notes[i] {
                let c = claim(m, note_times, hit_times, h, i);
                lemma_claim_lowers(m, note_times, hit_times, window, h, i);
                lemma_settle_well_formed(c, note_times, hit_times, window, prev.hit);
                assert forall|g: int|
                    #![trigger m.hits[g]]
                    0 <= g < m.hits.len() && g != h && m.hits[g] is None implies settle(
                        m,
                        note_times,
                        hit_times,
                        window,
                        h,
                    ).hits[g] is None by {
                    assert(c.hits[g] is None);
                }
            }
        },
    }
}

/// Lets hit `hit` search for a note, then lets every hit it evicts search
/// again, until no search evicts anyone.
pub fn find_matching_note(
    note_times: &Vec<i64>,
    hit_times: &Vec<i64>,
    window: u64,
    notes: &mut Vec<Option<Assignment>>,
    hits: &mut Vec<Option<usize>>,
    hit: usize,
)
    requires
        well_formed(matching_of(old(notes)@, old(hits)@), note_times@, hit_times@, window),
        hit < hit_times.len(),
        old(hits)@[hit as int] is None,
    ensures
        matching_of(final(notes)@, final(hits)@) == settle(
            matching_of(old(notes)@, old(hits)@),
            note_times@,
            hit_times@,
            window,
            hit,
        ),
        well_formed(matching_of(final(notes)@, final(hits)@), note_times@, hit_times@, window),
{
    let ghost goal = settle(matching_of(notes@, hits@), note_times@, hit_times@, window, hit);
    proof {
        lemma_settle_well_formed(matching_of(notes@, hits@), note_times@, hit_times@, window, hit);
    }
    let mut cur = hit;
    loop
        invariant
            well_formed(matching_of(notes@, hits@), note_times@, hit_times@, window),
            cur < hit_times.len(),
            hits@[cur as int] is None,
            settle(matching_of(notes@, hits@), note_times@, hit_times@, window, cur) == goal,
            goal == settle(
                matching_of(old(notes)@, old(hits)@),
                note_times@,
                hit_times@,
                window,
                hit,
            ),
            well_formed(goal, note_times@, hit_times@, window),
        decreases potential(notes@, window),
    {
        let ghost m = matching_of(notes@, hits@);
        let t = hit_times[cur];
        match best_note_index(note_times, notes, t, window) {
            None => {
                assert(hits@.update(cur as int, None) =~= hits@);
                assert(settle(m, note_times@, hit_times@, window, cur) == m);
                return ;
            },
            Some(i) => {
                proof {
                    assert(is_best(note_times@, m.notes, t, window, i as int));
                    lemma_claim_well_formed(m, note_times@, hit_times@, window, cur, i as int);
                    lemma_claim_lowers(m, note_times@, hit_times@, window, cur, i as int);
                }
                let d = deviation_between(note_times[i], t);
                let prev = notes[i];
                notes.set(i, Some(Assignment { hit: cur, deviation: d }));
                if let Some(p) = prev {
                    hits.set(p.hit, None);
                }
                hits.set(cur, Some(i));
                proof {
                    let c = claim(m, note_times@, hit_times@, cur, i as int);
                    assert(notes@ =~= c.notes);
                    assert(hits@ =~= c.hits);
                    assert(matching_of(notes@, hits@) == c);
                    assert(settle(m, note_times@, hit_times@, window, cur) == match prev {
                        None => c,
                        Some(p) => settle(c, note_times@, hit_times@, window, p.hit),
                    });
                }
                match prev {
                    None => {
                        return ;
                    },
                    Some(p) => {
                        cur = p.hit;
                    },
                }
            },
        }
    }
}


/// The matching after the first `k` hits, in input order, have each settled.
pub open spec fn settle_first(
    note_times: Seq<i64>,
    hit_times: Seq<i64>,
    window: u64,
    k: nat,
) -> Matching
    decreases k,
{
    if k == 0 {
        Matching {
            notes: Seq::new(note_times.len(), |i: int| None),
            hits: Seq::new(hit_times.len(), |h: int| None),
        }
    } else {
        settle(
            settle_first(note_times, hit_times, window, (k - 1) as nat),
            note_times,
            hit_times,
            window,
            (k - 1) as usize,
        )
    }
}

/// The matching once every hit has settled.
pub open spec fn final_matching(note_times: Seq<i64>, hit_times: Seq<i64>, window: u64) -> Matching {
    settle_first(note_times, hit_times, window, hit_times.len())
}

/// After `k` hits have settled the matching is well formed, and no later hit
/// is matched yet.
pub proof fn lemma_settle_first_well_formed(
    note_times: Seq<i64>,
    hit_times: Seq<i64>,
    window: u64,
    k: nat,
)
    requires
        k <= hit_times.len(),
        note_times.len() <= usize::MAX,
        hit_times.len() <= usize::MAX,
    ensures
        well_formed(settle_first(note_times, hit_times, window, k), note_times, hit_times, window),
        forall|g: int|
            #![trigger settle_first(note_times, hit_times, window, k).hits[g]]
            k <= g < hit_times.len() ==> settle_first(note_times, hit_times, window, k).hits[g] is None,
    decreases k,
{
    if k > 0 {
        let prev = settle_first(note_times, hit_times, window, (k - 1) as nat);
        lemma_settle_first_well_formed(note_times, hit_times, window, (k - 1) as nat);
        assert(prev.hits[k - 1] is None);
        lemma_settle_well_formed(prev, note_times, hit_times, window, (k - 1) as usize);
        assert forall|g: int|
            #![trigger settle_first(note_times, hit_times, window, k).hits[g]]
            k <= g < hit_times.len() implies settle_first(
                note_times,
                hit_times,
                window,
                k,
            ).hits[g] is None by {
            assert(prev.hits[g] is None);
        }
    }
}

/// Matches every hit, in input order, to the notes.
pub fn match_all(note_times: &Vec<i64>, hit_times: &Vec<i64>, window: u64) -> (r: (
    Vec<Option<Assignment>>,
    Vec<Option<usize>>,
))
    ensures
        matching_of(r.0@, r.1@) == final_matching(note_times@, hit_times@, window),
        well_formed(matching_of(r.0@, r.1@), note_times@, hit_times@, window),
{
    let mut notes: Vec<Option<Assignment>> = Vec::new();
    for i in 0..note_times.len()
        invariant
            notes@ =~= Seq::new(i as nat, |j: int| None::<Assignment>),
    {
        notes.push(None);
    }
    let mut hits: Vec<Option<usize>> = Vec::new();
    for h in 0..hit_times.len()
        invariant
            hits@ =~= Seq::new(h as nat, |j: int| None::<usize>),
    {
        hits.push(None);
    }
    proof {
        lemma_settle_first_well_formed(note_times@, hit_times@, window, 0);
        assert(matching_of(notes@, hits@) == settle_first(note_times@, hit_times@, window, 0));
    }
    for h in 0..hit_times.len()
        invariant
            matching_of(notes@, hits@) == settle_first(note_times@, hit_times@, window, h as nat),
            note_times@.len() <= usize::MAX,
    {
        proof {
            lemma_settle_first_well_formed(note_times@, hit_times@, window, h as nat);
        }
        find_matching_note(note_times, hit_times, window, &mut notes, &mut hits, h);
    }
    proof {
        lemma_settle_first_well_formed(note_times@, hit_times@, window, hit_times.len() as nat);
    }
    (notes, hits)
}

} // verus!
