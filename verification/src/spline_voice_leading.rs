//! Voice leading as splines through pitch space: each voice is a path whose
//! control points are chord tones, and the smoothest leading moves the voices
//! as little as possible from chord to chord.

use vstd::arithmetic::div_mod::lemma_small_mod;
use vstd::prelude::*;
use vstd::seq_lib::seq_to_set_is_finite;
use vstd::set_lib::{lemma_int_range, lemma_len_subset, set_int_range};

use crate::chord::{Chord, lemma_chord_pitch_count, lemma_chord_pitches};
use crate::pitch::{Pitch, interval_between, interval_fits, octave_reduced_distance};

verus! {

// ---------------------------------------------------------------------------
// Specification: distances and assignments
// ---------------------------------------------------------------------------

/// Distance between two pitches going the short way round the octave.
pub open spec fn pitch_distance(p: Pitch, q: Pitch) -> int {
    octave_reduced_distance(interval_between(p.midi, q.midi) as i8)
}

/// Every position can be measured against every target without overflow.
pub open spec fn all_pairs_fit(pos: Seq<Pitch>, n: int, tg: Seq<Pitch>) -> bool {
    forall|i: int, j: int|
        0 <= i < n && 0 <= j < tg.len() ==> interval_fits(#[trigger] pos[i].midi, #[trigger] tg[j].midi)
}

/// `a` assigns each of `n` voices one of `m` targets (by index).
pub open spec fn is_assignment(a: Seq<usize>, n: int, m: int) -> bool {
    a.len() == n && forall|i: int| 0 <= i < n ==> #[trigger] a[i] < m
}

/// Total movement of the first `k` voices under assignment `a`.
pub open spec fn assignment_cost(pos: Seq<Pitch>, tg: Seq<Pitch>, a: Seq<usize>, k: int) -> int
    decreases k,
{
    if k <= 0 {
        0
    } else {
        assignment_cost(pos, tg, a, k - 1) + pitch_distance(pos[k - 1], tg[a[k - 1] as int])
    }
}

/// `a` comes before `b` in lexicographic order (same length).
pub open spec fn lex_less(a: Seq<usize>, b: Seq<usize>) -> bool {
    a.len() == b.len() && exists|k: int|
        #![trigger a[k], b[k]]
        0 <= k < a.len() && a.subrange(0, k) == b.subrange(0, k) && a[k] < b[k]
}

/// `a` is the lexicographically first assignment of least total movement.
pub open spec fn is_first_cheapest(
    pos: Seq<Pitch>,
    tg: Seq<Pitch>,
    n: int,
    a: Seq<usize>,
) -> bool {
    &&& is_assignment(a, n, tg.len() as int)
    &&& forall|b: Seq<usize>|
        is_assignment(b, n, tg.len() as int) ==> assignment_cost(pos, tg, a, n) <= assignment_cost(
            pos,
            tg,
            b,
            n,
        )
    &&& forall|b: Seq<usize>|
        is_assignment(b, n, tg.len() as int) && lex_less(b, a) ==> assignment_cost(pos, tg, a, n)
            < #[trigger] assignment_cost(pos, tg, b, n)
}

/// Assignment `b` has been looked at once the search has reached prefix `p`:
/// its first `p.len()` choices come before `p` (or, unless `strict`, equal it).
pub open spec fn seen(b: Seq<usize>, p: Seq<usize>, strict: bool) -> bool {
    let q = b.subrange(0, p.len() as int);
    lex_less(q, p) || (!strict && q == p)
}

/// The best assignment found so far, as the search state records it: `None`
/// while no assignment has been looked at, else the first cheapest among
/// those looked at, with its cost.
pub open spec fn first_best_seen(
    state: Option<(Seq<usize>, int)>,
    pos: Seq<Pitch>,
    tg: Seq<Pitch>,
    n: int,
    p: Seq<usize>,
    strict: bool,
) -> bool {
    let m = tg.len() as int;
    match state {
        None => forall|b: Seq<usize>| is_assignment(b, n, m) ==> !#[trigger] seen(b, p, strict),
        Some((a, c)) => {
            &&& is_assignment(a, n, m)
            &&& seen(a, p, strict)
            &&& c == assignment_cost(pos, tg, a, n)
            &&& forall|b: Seq<usize>|
                is_assignment(b, n, m) && #[trigger] seen(b, p, strict) ==> c <= assignment_cost(
                    pos,
                    tg,
                    b,
                    n,
                )
            &&& forall|b: Seq<usize>|
                is_assignment(b, n, m) && #[trigger] seen(b, p, strict) && lex_less(b, a) ==> c
                    < assignment_cost(pos, tg, b, n)
        },
    }
}

/// The search state as a ghost value.
pub open spec fn search_state(best: Seq<usize>, cost: Option<u32>) -> Option<(Seq<usize>, int)> {
    match cost {
        None => None,
        Some(c) => Some((best, c as int)),
    }
}

// ---------------------------------------------------------------------------
// Specification: greedy assignment
// ---------------------------------------------------------------------------

/// Every one of the `m` targets has been claimed by an earlier voice.
pub open spec fn all_claimed(prev: Seq<usize>, m: int) -> bool {
    forall|j: usize| j < m ==> #[trigger] prev.contains(j)
}

/// Target `j` may still be taken: it is unclaimed, or every target is claimed.
pub open spec fn may_take(prev: Seq<usize>, m: int, j: int) -> bool {
    all_claimed(prev, m) || !prev.contains(j as usize)
}

/// `j` is the greedy choice for a voice at `p` after the choices `prev`: the
/// first target that may be taken among those nearest to `p`.
pub open spec fn is_greedy_pick(p: Pitch, tg: Seq<Pitch>, prev: Seq<usize>, j: int) -> bool {
    let m = tg.len() as int;
    &&& 0 <= j < m
    &&& may_take(prev, m, j)
    &&& forall|k: int|
        0 <= k < m && may_take(prev, m, k) ==> pitch_distance(p, tg[j]) <= pitch_distance(
            p,
            #[trigger] tg[k],
        )
    &&& forall|k: int|
        0 <= k < j && may_take(prev, m, k) ==> pitch_distance(p, tg[j]) < pitch_distance(
            p,
            #[trigger] tg[k],
        )
}

/// `picks` are the greedy choices of the voices at `pos`, in voice order.
pub open spec fn is_greedy_sequence(pos: Seq<Pitch>, tg: Seq<Pitch>, picks: Seq<usize>) -> bool {
    forall|i: int|
        0 <= i < picks.len() ==> is_greedy_pick(
            pos[i],
            tg,
            picks.subrange(0, i),
            #[trigger] picks[i] as int,
        )
}

/// Number of `true` entries.
pub open spec fn count_true(s: Seq<bool>) -> nat
    decreases s.len(),
{
    if s.len() == 0 {
        0
    } else {
        count_true(s.drop_last()) + if s.last() {
            1nat
        } else {
            0nat
        }
    }
}

/// The targets that `voices` voices at `current` move to: for up to four
/// voices the first cheapest assignment in lexicographic order; for more,
/// the greedy choices, voice by voice.
pub open spec fn is_minimal_assignment(
    current: Seq<Pitch>,
    tg: Seq<Pitch>,
    voices: int,
    result: Seq<Pitch>,
) -> bool {
    &&& result.len() == voices
    &&& voices <= 4 ==> exists|a: Seq<usize>|
        #[trigger] is_first_cheapest(current, tg, voices, a) && result == a.map_values(
            |j: usize| tg[j as int],
        )
    &&& voices > 4 ==> exists|picks: Seq<usize>|
        picks.len() == voices && #[trigger] is_greedy_sequence(current, tg, picks) && result
            == picks.map_values(|j: usize| tg[j as int])
}

// ---------------------------------------------------------------------------
// Lemmas
// ---------------------------------------------------------------------------

/// Lexicographic order is irreflexive and asymmetric.
pub proof fn lemma_lex_less_asymmetric(a: Seq<usize>, b: Seq<usize>)
    ensures
        !lex_less(a, a),
        lex_less(a, b) ==> !lex_less(b, a),
{
    if lex_less(a, b) && lex_less(b, a) {
        let k1 = choose|k: int|
            #![trigger a[k], b[k]]
            0 <= k < a.len() && a.subrange(0, k) == b.subrange(0, k) && a[k] < b[k];
        let k2 = choose|k: int|
            #![trigger b[k], a[k]]
            0 <= k < b.len() && b.subrange(0, k) == a.subrange(0, k) && b[k] < a[k];
        if k1 < k2 {
            assert(b.subrange(0, k2)[k1] == a.subrange(0, k2)[k1]);
        } else if k2 < k1 {
            assert(a.subrange(0, k1)[k2] == b.subrange(0, k1)[k2]);
        }
    }
}

/// Extending the prefix by one choice `j`: the assignments seen before
/// `p.push(j)` are those seen before `p`, and those that agree with `p` and
/// choose less than `j` next (or at most `j`, when not strict).
pub proof fn lemma_seen_extend(b: Seq<usize>, p: Seq<usize>, j: usize, strict: bool)
    requires
        b.len() > p.len(),
    ensures
        seen(b, p.push(j), strict) <==> (seen(b, p, true) || (b.subrange(0, p.len() as int) == p
            && (b[p.len() as int] < j || (!strict && b[p.len() as int] == j)))),
{
    let pos = p.len() as int;
    let pj = p.push(j);
    let q = b.subrange(0, pos + 1);
    let q0 = b.subrange(0, pos);
    assert(q.subrange(0, pos) == q0);
    if lex_less(q, pj) {
        let k = choose|k: int|
            #![trigger q[k], pj[k]]
            0 <= k < q.len() && q.subrange(0, k) == pj.subrange(0, k) && q[k] < pj[k];
        if k < pos {
            assert(q0.subrange(0, k) == q.subrange(0, k));
            assert(p.subrange(0, k) == pj.subrange(0, k));
            assert(q0[k] == q[k] && p[k] == pj[k]);
            assert(lex_less(q0, p));
        } else {
            assert(q.subrange(0, k) == q0);
            assert(pj.subrange(0, k) == p);
        }
    }
    if lex_less(q0, p) {
        let k = choose|k: int|
            #![trigger q0[k], p[k]]
            0 <= k < q0.len() && q0.subrange(0, k) == p.subrange(0, k) && q0[k] < p[k];
        assert(q.subrange(0, k) == q0.subrange(0, k));
        assert(pj.subrange(0, k) == p.subrange(0, k));
        assert(q[k] == q0[k] && pj[k] == p[k]);
        assert(lex_less(q, pj));
    }
    if q0 == p && b[pos] < j {
        assert(q.subrange(0, pos) == pj.subrange(0, pos));
        assert(q[pos] == b[pos] && pj[pos] == j);
        assert(lex_less(q, pj));
    }
    if q0 == p && b[pos] == j {
        assert(q =~= pj);
    }
    if q == pj {
        assert(q0 == pj.subrange(0, pos));
        assert(pj.subrange(0, pos) =~= p);
    }
    if !strict && !lex_less(q, pj) && q != pj && q0 == p {
        if b[pos] == j {
            assert(q =~= pj);
        }
    }
    lemma_lex_less_asymmetric(q0, p);
}

/// Two ways of describing the same seen set give the same search state.
pub proof fn lemma_first_best_transfer(
    state: Option<(Seq<usize>, int)>,
    pos: Seq<Pitch>,
    tg: Seq<Pitch>,
    n: int,
    p1: Seq<usize>,
    s1: bool,
    p2: Seq<usize>,
    s2: bool,
)
    requires
        first_best_seen(state, pos, tg, n, p1, s1),
        forall|b: Seq<usize>|
            is_assignment(b, n, tg.len() as int) ==> (seen(b, p1, s1) <==> seen(b, p2, s2)),
    ensures
        first_best_seen(state, pos, tg, n, p2, s2),
{
    let m = tg.len() as int;
    match state {
        None => {
            assert forall|b: Seq<usize>| is_assignment(b, n, m) implies !#[trigger] seen(
                b,
                p2,
                s2,
            ) by {
                assert(!seen(b, p1, s1));
            }
        },
        Some((a, c)) => {
            assert forall|b: Seq<usize>|
                is_assignment(b, n, m) && #[trigger] seen(b, p2, s2) implies c <= assignment_cost(
                pos,
                tg,
                b,
                n,
            ) by {
                assert(seen(b, p1, s1));
            }
            assert forall|b: Seq<usize>|
                is_assignment(b, n, m) && #[trigger] seen(b, p2, s2) && lex_less(b, a) implies c
                < assignment_cost(pos, tg, b, n) by {
                assert(seen(b, p1, s1));
            }
        },
    }
}

/// Movement of a single voice is at most 6, so `k` voices move at most `6k`.
pub proof fn lemma_assignment_cost_bound(pos: Seq<Pitch>, tg: Seq<Pitch>, a: Seq<usize>, k: int)
    requires
        k >= 0,
    ensures
        0 <= assignment_cost(pos, tg, a, k) <= 6 * k,
    decreases k,
{
    if k > 0 {
        lemma_assignment_cost_bound(pos, tg, a, k - 1);
    }
}

/// `count_true` is at most the length, and equals it exactly when every entry is true.
pub proof fn lemma_count_true(s: Seq<bool>)
    ensures
        count_true(s) <= s.len(),
        count_true(s) == s.len() <==> forall|j: int| 0 <= j < s.len() ==> s[j],
    decreases s.len(),
{
    if s.len() > 0 {
        lemma_count_true(s.drop_last());
        if count_true(s) == s.len() {
            assert forall|j: int| 0 <= j < s.len() implies s[j] by {
                if j < s.len() - 1 {
                    assert(s.drop_last()[j] == s[j]);
                }
            }
        }
        if forall|j: int| 0 <= j < s.len() ==> s[j] {
            assert forall|j: int| 0 <= j < s.drop_last().len() implies s.drop_last()[j] by {
                assert(s[j]);
            }
        }
    }
}

/// With no `true` entry the count is zero.
pub proof fn lemma_count_true_none(s: Seq<bool>)
    requires
        forall|j: int| 0 <= j < s.len() ==> !s[j],
    ensures
        count_true(s) == 0,
    decreases s.len(),
{
    if s.len() > 0 {
        lemma_count_true_none(s.drop_last());
    }
}

/// Setting a `false` entry to `true` adds one to the count.
pub proof fn lemma_count_true_set(s: Seq<bool>, j: int)
    requires
        0 <= j < s.len(),
        !s[j],
    ensures
        count_true(s.update(j, true)) == count_true(s) + 1,
    decreases s.len(),
{
    let t = s.update(j, true);
    if j == s.len() - 1 {
        assert(t.drop_last() =~= s.drop_last());
    } else {
        assert(t.drop_last() =~= s.drop_last().update(j, true));
        lemma_count_true_set(s.drop_last(), j);
    }
}

// ---------------------------------------------------------------------------
// Exhaustive search over assignments
// ---------------------------------------------------------------------------

/// Movement of one voice from `p` to `q`.
fn distance(p: &Pitch, q: &Pitch) -> (d: u8)
    requires
        interval_fits(p.midi, q.midi),
    ensures
        d == pitch_distance(*p, *q),
        d <= 6,
{
    let interval = p.interval_to(q);
    interval.minimal_distance()
}

/// Visits every completion of the prefix `current[..pos]` in lexicographic
/// order, keeping in `best_assignment` / `best_cost` the first one of least
/// total movement seen so far (`None` as cost means nothing seen yet).
fn enumerate_assignments(
    n: usize,
    target_len: usize,
    current: &mut Vec<usize>,
    pos: usize,
    best_assignment: &mut Vec<usize>,
    best_cost: &mut Option<u32>,
    positions: &[Pitch],
    targets: &[Pitch],
)
    requires
        n <= 4,
        target_len == targets@.len(),
        target_len >= 1,
        positions@.len() >= n,
        all_pairs_fit(positions@, n as int, targets@),
        old(current)@.len() == n,
        pos <= n,
        forall|i: int| 0 <= i < pos ==> #[trigger] old(current)@[i] < target_len,
        old(best_assignment)@.len() == n,
        first_best_seen(
            search_state(old(best_assignment)@, *old(best_cost)),
            positions@,
            targets@,
            n as int,
            old(current)@.subrange(0, pos as int),
            true,
        ),
    ensures
        final(current)@.len() == n,
        final(current)@.subrange(0, pos as int) == old(current)@.subrange(0, pos as int),
        final(best_assignment)@.len() == n,
        first_best_seen(
            search_state(final(best_assignment)@, *final(best_cost)),
            positions@,
            targets@,
            n as int,
            old(current)@.subrange(0, pos as int),
            false,
        ),
    decreases n - pos,
{
    let ghost prefix = current@.subrange(0, pos as int);
    if pos == n {
        let mut cost: u32 = 0;
        let mut i: usize = 0;
        while i < n
            invariant
                i <= n,
                n <= 4,
                current@.len() == n,
                positions@.len() >= n,
                target_len == targets@.len(),
                forall|k: int| 0 <= k < n ==> #[trigger] current@[k] < target_len,
                all_pairs_fit(positions@, n as int, targets@),
                cost == assignment_cost(positions@, targets@, current@, i as int),
                cost <= 6 * i,
            decreases n - i,
        {
            let idx = current[i] % target_len;
            proof {
                lemma_small_mod(current@[i as int] as nat, target_len as nat);
                assert(idx == current@[i as int]);
                assert(interval_fits(positions@[i as int].midi, targets@[idx as int].midi));
            }
            let d = distance(&positions[i], &targets[idx]);
            cost = cost + d as u32;
            i = i + 1;
        }
        let ghost a = current@;
        proof {
            assert(prefix =~= a);
            assert forall|b: Seq<usize>| is_assignment(b, n as int, target_len as int) implies (seen(
                b,
                prefix,
                false,
            ) <==> (seen(b, prefix, true) || b == a)) by {
                assert(b.subrange(0, n as int) =~= b);
            }
        }
        let better = match *best_cost {
            None => true,
            Some(c) => cost < c,
        };
        if better {
            proof {
                assert forall|b: Seq<usize>|
                    is_assignment(b, n as int, target_len as int) && #[trigger] seen(
                        b,
                        prefix,
                        false,
                    ) && lex_less(b, a) implies cost < assignment_cost(
                    positions@,
                    targets@,
                    b,
                    n as int,
                ) by {
                    assert(b.subrange(0, n as int) =~= b);
                    lemma_lex_less_asymmetric(b, a);
                    assert(seen(b, prefix, true));
                }
            }
            *best_assignment = current.clone();
            *best_cost = Some(cost);
            proof {
                assert(best_assignment@ =~= a);
                assert(a.subrange(0, n as int) =~= a);
            }
        } else {
            proof {
                let ghost old_a = best_assignment@;
                assert(old_a.subrange(0, n as int) =~= old_a);
                lemma_lex_less_asymmetric(old_a, a);
                assert forall|b: Seq<usize>|
                    is_assignment(b, n as int, target_len as int) && #[trigger] seen(
                        b,
                        prefix,
                        false,
                    ) && lex_less(b, old_a) implies best_cost->0 < assignment_cost(
                    positions@,
                    targets@,
                    b,
                    n as int,
                ) by {
                    assert(b.subrange(0, n as int) =~= b);
                    if b == a {
                        lemma_lex_less_asymmetric(b, old_a);
                        assert(seen(old_a, prefix, true));
                    } else {
                        assert(seen(b, prefix, true));
                    }
                }
                assert(seen(old_a, prefix, true));
            }
        }
        return ;
    }
    proof {
        assert forall|b: Seq<usize>|
            is_assignment(b, n as int, target_len as int) implies (seen(b, prefix, true) <==> seen(
            b,
            prefix.push(0usize),
            true,
        )) by {
            lemma_seen_extend(b, prefix, 0usize, true);
        }
        lemma_first_best_transfer(
            search_state(best_assignment@, *best_cost),
            positions@,
            targets@,
            n as int,
            prefix,
            true,
            prefix.push(0usize),
            true,
        );
    }
    let mut j: usize = 0;
    while j < target_len
        invariant
            n <= 4,
            pos < n,
            j <= target_len,
            target_len == targets@.len(),
            target_len >= 1,
            positions@.len() >= n,
            all_pairs_fit(positions@, n as int, targets@),
            current@.len() == n,
            current@.subrange(0, pos as int) == prefix,
            prefix.len() == pos,
            forall|i: int| 0 <= i < pos ==> #[trigger] prefix[i] < target_len,
            best_assignment@.len() == n,
            first_best_seen(
                search_state(best_assignment@, *best_cost),
                positions@,
                targets@,
                n as int,
                prefix.push(j),
                true,
            ),
        decreases target_len - j,
    {
        current.set(pos, j);
        proof {
            assert(current@.subrange(0, pos + 1) =~= prefix.push(j));
            assert forall|i: int| 0 <= i < pos + 1 implies #[trigger] current@[i] < target_len by {
                if i < pos {
                    assert(current@.subrange(0, pos as int)[i] == current@[i]);
                }
            }
        }
        enumerate_assignments(
            n,
            target_len,
            current,
            pos + 1,
            best_assignment,
            best_cost,
            positions,
            targets,
        );
        proof {
            assert(current@.subrange(0, pos as int) =~= current@.subrange(0, pos + 1).subrange(
                0,
                pos as int,
            ));
            assert forall|b: Seq<usize>|
                is_assignment(b, n as int, target_len as int) implies (seen(
                b,
                prefix.push(j),
                false,
            ) <==> seen(b, prefix.push((j + 1) as usize), true)) by {
                lemma_seen_extend(b, prefix, j, false);
                lemma_seen_extend(b, prefix, (j + 1) as usize, true);
            }
            lemma_first_best_transfer(
                search_state(best_assignment@, *best_cost),
                positions@,
                targets@,
                n as int,
                prefix.push(j),
                false,
                prefix.push((j + 1) as usize),
                true,
            );
        }
        j = j + 1;
    }
    proof {
        assert forall|b: Seq<usize>|
            is_assignment(b, n as int, target_len as int) implies (seen(
            b,
            prefix.push(target_len),
            true,
        ) <==> seen(b, prefix, false)) by {
            lemma_seen_extend(b, prefix, target_len, true);
            assert(b[pos as int] < target_len);
        }
        lemma_first_best_transfer(
            search_state(best_assignment@, *best_cost),
            positions@,
            targets@,
            n as int,
            prefix.push(target_len),
            true,
            prefix,
            false,
        );
    }
}


// ---------------------------------------------------------------------------
// Voice leading
// ---------------------------------------------------------------------------

/// A voice event: a note played by one voice. Time and duration are counted
/// in beats; each chord lasts one beat.
#[derive(Debug, Clone, Copy, PartialEq, Eq, Structural)]
pub struct VoiceEvent {
    pub time: usize,
    pub voice: usize,
    pub pitch: Pitch,
    pub duration: usize,
}

/// Voice leading as splines through pitch space.
#[derive(Debug, Clone)]
pub struct SplineVoiceLeading {
    pub voices: usize,
    pub chords: Vec<Chord>,
    /// One path per voice through all chords.
    pub paths: Vec<Vec<Pitch>>,
}

/// Pitch of the chord that voice `i` takes first: pitch `i` of the chord
/// while there are enough pitches, the root for every voice beyond them.
pub open spec fn first_pitch_index(i: int, m: int) -> int {
    if i < m {
        i
    } else {
        0
    }
}

/// First voicing of a chord: voice `i` takes pitch `i` of the chord, and the
/// voices beyond the chord's pitches double the root.
pub open spec fn initial_voicing(ps: Seq<Pitch>, voices: int) -> Seq<Pitch> {
    Seq::new(voices as nat, |i: int| ps[first_pitch_index(i, ps.len() as int)])
}

/// The greedy choice of the next voice, after the choices `picks`, can
/// measure that voice against every target it may take.
pub open spec fn next_voice_measurable(pos: Seq<Pitch>, tg: Seq<Pitch>, picks: Seq<usize>) -> bool {
    forall|j: int|
        0 <= j < tg.len() && may_take(picks, tg.len() as int, j) ==> interval_fits(
            pos[picks.len() as int].midi,
            #[trigger] tg[j].midi,
        )
}

/// What `minimal_assignment` measures can be measured without overflow: for
/// up to four voices every voice against every target; for more, each voice
/// against the targets that the greedy choice may take for it.
pub open spec fn assignment_measurable(pos: Seq<Pitch>, n: int, tg: Seq<Pitch>) -> bool {
    if n <= 4 {
        all_pairs_fit(pos, n, tg)
    } else {
        forall|picks: Seq<usize>|
            picks.len() < n && is_greedy_sequence(pos, tg, picks) ==> #[trigger] next_voice_measurable(
                pos,
                tg,
                picks,
            )
    }
}

/// `cols` are the first `cols.len()` columns of the smoothest voice leading
/// of `chords` with `voices` voices.
pub open spec fn is_voicing_prefix(chords: Seq<Chord>, voices: int, cols: Seq<Seq<Pitch>>) -> bool {
    &&& 1 <= cols.len() <= chords.len()
    &&& cols[0] == initial_voicing(chords[0].spec_pitches(), voices)
    &&& forall|k: int|
        1 <= k < cols.len() ==> is_minimal_assignment(
            cols[k - 1],
            chords[k].spec_pitches(),
            voices,
            #[trigger] cols[k],
        )
}

/// The chords' pitches stay within a MIDI byte, and each step of the
/// smoothest voice leading can measure what it measures: the voices where
/// they stand against the pitches of the next chord.
pub open spec fn voice_leading_defined(chords: Seq<Chord>, voices: int) -> bool {
    &&& forall|i: int| 0 <= i < chords.len() ==> (#[trigger] chords[i]).fits()
    &&& forall|cols: Seq<Seq<Pitch>>|
        is_voicing_prefix(chords, voices, cols) && cols.len() < chords.len()
            ==> #[trigger] assignment_measurable(
            cols.last(),
            voices,
            chords[cols.len() as int].spec_pitches(),
        )
}

/// Every chord is the first one again: same root, quality and extensions.
pub open spec fn same_chord_throughout(chords: Seq<Chord>) -> bool {
    forall|i: int|
        0 <= i < chords.len() ==> (#[trigger] chords[i]).root == chords[0].root && chords[i].quality
            == chords[0].quality && chords[i].extensions@ == chords[0].extensions@
}

/// No two pitches of the chord are a zero distance apart: they lie in
/// different pitch classes.
pub open spec fn distinct_classes(c: Chord) -> bool {
    forall|a: int, b: int|
        0 <= a < c.spec_pitches().len() && 0 <= b < c.spec_pitches().len() && a != b
            ==> pitch_distance(#[trigger] c.spec_pitches()[a], #[trigger] c.spec_pitches()[b]) != 0
}

/// Pitches sounding at chord `i`, one per voice.
pub open spec fn column(paths: Seq<Vec<Pitch>>, i: int) -> Seq<Pitch> {
    Seq::new(paths.len(), |v: int| paths[v]@[i])
}

/// Movement along a path over its first `k` points.
pub open spec fn path_movement(path: Seq<Pitch>, k: int) -> int
    decreases k,
{
    if k <= 1 {
        0
    } else {
        path_movement(path, k - 1) + pitch_distance(path[k - 2], path[k - 1])
    }
}

/// Movement of the first `v` voices along their whole paths.
pub open spec fn total_movement(paths: Seq<Vec<Pitch>>, v: int) -> int
    decreases v,
{
    if v <= 0 {
        0
    } else {
        total_movement(paths, v - 1) + path_movement(paths[v - 1]@, paths[v - 1]@.len() as int)
    }
}

/// Number of points on the first `v` paths.
pub open spec fn total_points(paths: Seq<Vec<Pitch>>, v: int) -> int
    decreases v,
{
    if v <= 0 {
        0
    } else {
        total_points(paths, v - 1) + paths[v - 1]@.len()
    }
}

/// Consecutive points of every one of the first `voices` paths can be
/// measured against each other without overflow.
pub open spec fn paths_fit(paths: Seq<Vec<Pitch>>, voices: int) -> bool {
    forall|v: int, i: int|
        0 <= v < voices && 1 <= i < paths[v]@.len() ==> interval_fits(
            #[trigger] paths[v]@[i - 1].midi,
            paths[v]@[i].midi,
        )
}

/// Sum over the points of `path` before index `k` that have a point on
/// either side of |next - 2 * point + previous|, in semitones.
pub open spec fn curvature_sum(path: Seq<Pitch>, k: int) -> int
    decreases k,
{
    if k < 3 {
        0
    } else {
        let d = path[k - 1].midi + path[k - 3].midi - 2 * path[k - 2].midi;
        curvature_sum(path, k - 1) + if d >= 0 {
            d
        } else {
            -d
        }
    }
}

/// Events of chord `c` for the first `v` voices, in voice order; a voice
/// whose path is too short for `c` plays nothing.
pub open spec fn chord_events(paths: Seq<Vec<Pitch>>, c: int, v: int) -> Seq<VoiceEvent>
    decreases v,
{
    if v <= 0 {
        Seq::empty()
    } else if c < paths[v - 1]@.len() {
        chord_events(paths, c, v - 1).push(
            VoiceEvent { time: c as usize, voice: (v - 1) as usize, pitch: paths[v - 1]@[c], duration: 1 },
        )
    } else {
        chord_events(paths, c, v - 1)
    }
}

/// Events of the first `k` chords, chord by chord.
pub open spec fn events_before(paths: Seq<Vec<Pitch>>, voices: int, k: int) -> Seq<VoiceEvent>
    decreases k,
{
    if k <= 0 {
        Seq::empty()
    } else {
        events_before(paths, voices, k - 1) + chord_events(paths, k - 1, voices)
    }
}

/// A chord has at least three pitches.
pub proof fn lemma_chord_has_three_pitches(c: Chord)
    ensures
        c.spec_pitches().len() >= 3,
{
    lemma_chord_pitches(c.root, c.quality, c.extensions@);
}

impl SplineVoiceLeading {
    /// Assign voices to chord pitches, duplicating the root if needed.
    fn assign_voices(chord: &Chord, voices: usize) -> (r: Vec<Pitch>)
        requires
            chord.fits(),
        ensures
            r@ == initial_voicing(chord.spec_pitches(), voices as int),
    {
        let pitches = chord.pitches();
        proof {
            lemma_chord_pitches(chord.root, chord.quality, chord.extensions@);
        }
        let mut result: Vec<Pitch> = Vec::with_capacity(voices);
        let mut i: usize = 0;
        while i < voices
            invariant
                pitches@ == chord.spec_pitches(),
                pitches@.len() >= 1,
                i <= voices,
                result@ == initial_voicing(pitches@, i as int),
            decreases voices - i,
        {
            let k = if i < pitches.len() {
                i
            } else {
                0
            };
            result.push(pitches[k]);
            i = i + 1;
            proof {
                assert(result@ =~= initial_voicing(pitches@, i as int));
            }
        }
        result
    }

    /// Find the minimal-movement assignment from the current positions of
    /// the voices to the pitches of `target_chord`: for up to four voices the
    /// first cheapest of all assignments (in lexicographic order); for more,
    /// a greedy nearest-pitch choice voice by voice that gives each voice a
    /// pitch no earlier voice took, while any such pitch remains.
    pub fn minimal_assignment(current: &[Pitch], target_chord: &Chord, voices: usize) -> (r: Vec<
        Pitch,
    >)
        requires
            current@.len() >= 1,
            current@.len() >= voices,
            target_chord.fits(),
            assignment_measurable(current@, voices as int, target_chord.spec_pitches()),
        ensures
            is_minimal_assignment(current@, target_chord.spec_pitches(), voices as int, r@),
            forall|k: int| 0 <= k < voices ==> target_chord.spec_pitches().contains(#[trigger] r@[k]),
    {
        let target_pitches = target_chord.pitches();
        let ghost tg = target_pitches@;
        proof {
            lemma_chord_pitches(target_chord.root, target_chord.quality, target_chord.extensions@);
        }
        let m = target_pitches.len();
        let n = voices;
        let mut used = vec![false; m];
        let mut result = vec![current[0]; n];
        if n <= 4 {
            let mut best_assignment: Vec<usize> = vec![0; n];
            let mut best_cost: Option<u32> = None;
            let mut scratch: Vec<usize> = vec![0; n];
            proof {
                assert forall|b: Seq<usize>| is_assignment(b, n as int, m as int) implies !#[trigger] seen(
                    b,
                    scratch@.subrange(0, 0),
                    true,
                ) by {
                    lemma_lex_less_asymmetric(b.subrange(0, 0), b.subrange(0, 0));
                    assert(b.subrange(0, 0) =~= scratch@.subrange(0, 0));
                }
            }
            let ghost p0 = scratch@.subrange(0, 0);
            enumerate_assignments(
                n,
                m,
                &mut scratch,
                0,
                &mut best_assignment,
                &mut best_cost,
                current,
                target_pitches.as_slice(),
            );
            let ghost zeros = Seq::new(n as nat, |i: int| 0usize);
            proof {
                let empty = Seq::<usize>::empty();
                assert(zeros.subrange(0, 0) =~= empty);
                assert(scratch@.subrange(0, 0) =~= empty);
                assert(is_assignment(zeros, n as int, m as int));
                assert(seen(zeros, empty, false));
            }
            let ghost a = best_assignment@;
            proof {
                assert forall|b: Seq<usize>| is_assignment(b, n as int, m as int) implies #[trigger] seen(
                    b,
                    Seq::<usize>::empty(),
                    false,
                ) by {
                    assert(b.subrange(0, 0) =~= Seq::<usize>::empty());
                }
                assert(p0 =~= Seq::<usize>::empty());
                if best_cost is None {
                    assert(!seen(zeros, p0, false));
                }
                assert(best_cost is Some);
                let c = best_cost->0 as int;
                assert(search_state(a, best_cost) == Some((a, c)));
                assert forall|b: Seq<usize>| is_assignment(b, n as int, m as int) implies assignment_cost(
                    current@,
                    tg,
                    a,
                    n as int,
                ) <= assignment_cost(current@, tg, b, n as int) by {
                    assert(seen(b, p0, false));
                }
                assert forall|b: Seq<usize>|
                    is_assignment(b, n as int, m as int) && lex_less(b, a) implies assignment_cost(
                    current@,
                    tg,
                    a,
                    n as int,
                ) < #[trigger] assignment_cost(current@, tg, b, n as int) by {
                    assert(seen(b, p0, false));
                }
                assert(is_first_cheapest(current@, tg, n as int, a));
            }
            let mut i: usize = 0;
            while i < n
                invariant
                    n <= 4,
                    i <= n,
                    m == tg.len(),
                    target_pitches@ == tg,
                    best_assignment@ == a,
                    is_assignment(a, n as int, m as int),
                    result@.len() == n,
                    forall|k: int| 0 <= k < i ==> #[trigger] result@[k] == tg[a[k] as int],
                decreases n - i,
            {
                let idx = best_assignment[i] % m;
                proof {
                    lemma_small_mod(a[i as int] as nat, m as nat);
                }
                result.set(i, target_pitches[idx]);
                i = i + 1;
            }
            proof {
                assert(result@ =~= a.map_values(|j: usize| tg[j as int]));
                assert forall|k: int| 0 <= k < n implies tg.contains(#[trigger] result@[k]) by {
                    assert(tg[a[k] as int] == result@[k]);
                }
            }
        } else {
            let mut used_count: usize = 0;
            let ghost mut picks: Seq<usize> = Seq::empty();
            proof {
                lemma_count_true_none(used@);
            }
            let mut i: usize = 0;
            while i < n
                invariant
                    i <= n,
                    n == voices,
                    current@.len() >= n,
                    m == tg.len(),
                    m >= 1,
                    target_pitches@ == tg,
                    tg == target_chord.spec_pitches(),
                    assignment_measurable(current@, n as int, tg),
                    used@.len() == m,
                    result@.len() == n,
                    picks.len() == i,
                    is_greedy_sequence(current@, tg, picks),
                    forall|k: int| 0 <= k < i ==> #[trigger] picks[k] < m,
                    forall|k: int| 0 <= k < i ==> #[trigger] result@[k] == tg[picks[k] as int],
                    forall|j: int| 0 <= j < m ==> (#[trigger] used@[j] <==> picks.contains(j as usize)),
                    used_count == count_true(used@),
                decreases n - i,
            {
                proof {
                    lemma_count_true(used@);
                    if used_count >= m {
                        assert forall|j: usize| j < m implies #[trigger] picks.contains(j) by {
                            assert(used@[j as int]);
                        }
                    }
                    if all_claimed(picks, m as int) {
                        assert forall|j: int| 0 <= j < used@.len() implies used@[j] by {
                            assert(picks.contains(j as usize));
                        }
                    }
                }
                proof {
                    assert(next_voice_measurable(current@, tg, picks));
                }
                let allow_reuse = used_count >= m;
                let mut best_j: usize = 0;
                let mut best_dist: Option<u8> = None;
                let mut j: usize = 0;
                while j < m
                    invariant
                        i < n,
                        j <= m,
                        m == tg.len(),
                        target_pitches@ == tg,
                        current@.len() >= n,
                        used@.len() == m,
                        picks.len() == i,
                        next_voice_measurable(current@, tg, picks),
                        allow_reuse == all_claimed(picks, m as int),
                        forall|k: int| 0 <= k < m ==> (#[trigger] used@[k] <==> picks.contains(k as usize)),
                        best_dist is None ==> forall|k: int| 0 <= k < j ==> !may_take(picks, m as int, k),
                        best_dist is Some ==> {
                            &&& best_j < j
                            &&& may_take(picks, m as int, best_j as int)
                            &&& best_dist->0 == pitch_distance(current@[i as int], tg[best_j as int])
                            &&& forall|k: int|
                                0 <= k < j && may_take(picks, m as int, k) ==> best_dist->0
                                    <= pitch_distance(current@[i as int], #[trigger] tg[k])
                            &&& forall|k: int|
                                0 <= k < best_j && may_take(picks, m as int, k) ==> best_dist->0
                                    < pitch_distance(current@[i as int], #[trigger] tg[k])
                        },
                    decreases m - j,
                {
                    if !allow_reuse && used[j] {
                        j = j + 1;
                        continue;
                    }
                    proof {
                        assert(may_take(picks, m as int, j as int));
                        assert(interval_fits(current@[i as int].midi, tg[j as int].midi));
                    }
                    let dist = distance(&current[i], &target_pitches[j]);
                    let closer = match best_dist {
                        None => true,
                        Some(d) => dist < d,
                    };
                    if closer {
                        best_dist = Some(dist);
                        best_j = j;
                    }
                    j = j + 1;
                }
                proof {
                    if best_dist is None {
                        if all_claimed(picks, m as int) {
                            assert(may_take(picks, m as int, 0));
                        } else {
                            let k = choose|k: usize| k < m && !#[trigger] picks.contains(k);
                            assert(may_take(picks, m as int, k as int));
                        }
                    }
                    assert(is_greedy_pick(current@[i as int], tg, picks, best_j as int));
                }
                result.set(i, target_pitches[best_j]);
                let ghost old_used = used@;
                if !used[best_j] {
                    used.set(best_j, true);
                    used_count = used_count + 1;
                    proof {
                        lemma_count_true_set(old_used, best_j as int);
                        lemma_count_true(used@);
                    }
                }
                proof {
                    let old_picks = picks;
                    picks = picks.push(best_j);
                    assert(picks.subrange(0, i as int) =~= old_picks);
                    assert forall|k: int| 0 <= k < i + 1 implies is_greedy_pick(
                        current@[k],
                        tg,
                        picks.subrange(0, k),
                        #[trigger] picks[k] as int,
                    ) by {
                        if k < i {
                            assert(picks.subrange(0, k) =~= old_picks.subrange(0, k));
                            assert(picks[k] == old_picks[k]);
                        }
                    }
                    assert forall|jj: int| 0 <= jj < m implies (#[trigger] used@[jj] <==> picks.contains(
                        jj as usize,
                    )) by {
                        if picks.contains(jj as usize) {
                            let k = choose|k: int| 0 <= k < picks.len() && picks[k] == jj as usize;
                            if k < i {
                                assert(old_picks[k] == jj as usize);
                            }
                        }
                        if old_picks.contains(jj as usize) {
                            let k = choose|k: int| 0 <= k < old_picks.len() && old_picks[k] == jj as usize;
                            assert(picks[k] == jj as usize);
                        }
                        assert(picks[i as int] == best_j);
                    }
                }
                i = i + 1;
            }
            proof {
                assert(result@ =~= picks.map_values(|j: usize| tg[j as int]));
                assert forall|k: int| 0 <= k < n implies tg.contains(#[trigger] result@[k]) by {
                    assert(tg[picks[k] as int] == result@[k]);
                }
            }
        }
        result
    }
}


impl SplineVoiceLeading {
    /// Find the smoothest voice leading (minimal total movement): the voices
    /// start on the first chord as `initial_voicing` places them, and each
    /// following chord is voiced by `minimal_assignment` from the previous one.
    pub fn smoothest(chords: Vec<Chord>, voices: usize) -> (s: SplineVoiceLeading)
        requires
            voice_leading_defined(chords@, voices as int),
            voices > 0 || chords@.len() <= 1,
        ensures
            s.voices == voices,
            s.chords == chords,
            s.paths@.len() == voices,
            forall|v: int| 0 <= v < voices ==> (#[trigger] s.paths@[v])@.len() == chords@.len(),
            chords@.len() > 0 ==> column(s.paths@, 0) == initial_voicing(
                chords@[0].spec_pitches(),
                voices as int,
            ),
            forall|i: int|
                1 <= i < chords@.len() ==> is_minimal_assignment(
                    column(s.paths@, i - 1),
                    chords@[i].spec_pitches(),
                    voices as int,
                    #[trigger] column(s.paths@, i),
                ),
            forall|v: int, i: int|
                0 <= v < voices && 0 <= i < chords@.len() ==> chords@[i].spec_pitches().contains(
                    #[trigger] s.paths@[v]@[i],
                ),
            same_chord_throughout(chords@) && chords@.len() > 0 && (voices > 4 || distinct_classes(
                chords@[0],
            )) ==> forall|v: int, i: int|
                0 <= v < voices && 0 <= i < chords@.len() ==> #[trigger] s.paths@[v]@[i]
                    == s.paths@[v]@[0],
            same_chord_throughout(chords@) ==> total_movement(s.paths@, voices as int) == 0,
    {
        let n = chords.len();
        let mut columns: Vec<Vec<Pitch>> = Vec::new();
        if n > 0 {
            proof {
                lemma_chord_has_three_pitches(chords@[0]);
                assert(chords@[0].fits());
            }
            let first = Self::assign_voices(&chords[0], voices);
            proof {
                let ps = chords@[0].spec_pitches();
                assert forall|v: int| 0 <= v < voices implies ps.contains(#[trigger] first@[v]) by {
                    assert(first@[v] == ps[first_pitch_index(v, ps.len() as int)]);
                }
            }
            columns.push(first);
            let mut i: usize = 1;
            while i < n
                invariant
                    n == chords@.len(),
                    1 <= i <= n,
                    voices > 0 || n <= 1,
                    voice_leading_defined(chords@, voices as int),
                    columns@.len() == i,
                    columns@[0]@ == initial_voicing(chords@[0].spec_pitches(), voices as int),
                    forall|k: int| 0 <= k < i ==> (#[trigger] columns@[k])@.len() == voices,
                    forall|k: int, v: int|
                        0 <= k < i && 0 <= v < voices ==> chords@[k].spec_pitches().contains(
                            #[trigger] columns@[k]@[v],
                        ),
                    forall|k: int|
                        1 <= k < i ==> is_minimal_assignment(
                            columns@[k - 1]@,
                            chords@[k].spec_pitches(),
                            voices as int,
                            #[trigger] columns@[k]@,
                        ),
                    same_chord_throughout(chords@) && (voices > 4 || distinct_classes(chords@[0]))
                        ==> forall|k: int| 0 <= k < i ==> #[trigger] columns@[k]@ == columns@[0]@,
                    same_chord_throughout(chords@) ==> forall|k: int, v: int|
                        1 <= k < i && 0 <= v < voices ==> #[trigger] pitch_distance(
                            columns@[k - 1]@[v],
                            columns@[k]@[v],
                        ) == 0,
                decreases n - i,
            {
                let ghost prev = columns@[i - 1]@;
                proof {
                    assert(chords@[i as int].fits());
                    let cols = Seq::new(i as nat, |k: int| columns@[k]@);
                    assert(is_voicing_prefix(chords@, voices as int, cols)) by {
                        assert forall|k: int| 1 <= k < cols.len() implies is_minimal_assignment(
                            cols[k - 1],
                            chords@[k].spec_pitches(),
                            voices as int,
                            #[trigger] cols[k],
                        ) by {
                            assert(cols[k] == columns@[k]@);
                            assert(cols[k - 1] == columns@[k - 1]@);
                        }
                    }
                    assert(cols.last() == prev);
                    assert(assignment_measurable(
                        cols.last(),
                        voices as int,
                        chords@[cols.len() as int].spec_pitches(),
                    ));
                }
                let next = Self::minimal_assignment(columns[i - 1].as_slice(), &chords[i], voices);
                proof {
                    if same_chord_throughout(chords@) {
                        let c = chords@[i as int];
                        assert(c.spec_pitches() == chords@[0].spec_pitches());
                        assert(chords@[i - 1].spec_pitches() == chords@[0].spec_pitches());
                        if voices > 4 || distinct_classes(chords@[0]) {
                            assert(columns@[i - 1]@ == columns@[0]@);
                            lemma_repeated_chord_stays(c, voices as int, next@);
                            assert forall|v: int| 0 <= v < voices implies #[trigger] pitch_distance(
                                prev[v],
                                next@[v],
                            ) == 0 by {
                                lemma_pitch_distance_basics(prev[v], prev[v]);
                            }
                        } else {
                            assert forall|v: int| 0 <= v < voices implies c.spec_pitches().contains(
                                #[trigger] prev[v],
                            ) by {
                                assert(chords@[i - 1].spec_pitches().contains(columns@[i - 1]@[v]));
                            }
                            lemma_exhaustive_step_costs_nothing(c, voices as int, prev, next@);
                        }
                    }
                }
                columns.push(next);
                i = i + 1;
            }
        }
        let mut paths: Vec<Vec<Pitch>> = Vec::new();
        let mut v: usize = 0;
        while v < voices
            invariant
                v <= voices,
                n == chords@.len(),
                columns@.len() == n,
                forall|k: int| 0 <= k < n ==> (#[trigger] columns@[k])@.len() == voices,
                paths@.len() == v,
                forall|w: int| 0 <= w < v ==> (#[trigger] paths@[w])@.len() == n,
                forall|w: int, k: int|
                    0 <= w < v && 0 <= k < n ==> #[trigger] paths@[w]@[k] == columns@[k]@[w],
            decreases voices - v,
        {
            let mut path: Vec<Pitch> = Vec::new();
            let mut k: usize = 0;
            while k < n
                invariant
                    v < voices,
                    k <= n,
                    n == columns@.len(),
                    forall|q: int| 0 <= q < n ==> (#[trigger] columns@[q])@.len() == voices,
                    path@.len() == k,
                    forall|q: int| 0 <= q < k ==> #[trigger] path@[q] == columns@[q]@[v as int],
                decreases n - k,
            {
                path.push(columns[k][v]);
                k = k + 1;
            }
            paths.push(path);
            v = v + 1;
        }
        proof {
            assert forall|k: int| 0 <= k < n implies column(paths@, k) == columns@[k]@ by {
                assert(column(paths@, k) =~= columns@[k]@);
            }
            if n > 0 {
                assert(column(paths@, 0) == columns@[0]@);
            }
            assert forall|i: int|
                1 <= i < n implies is_minimal_assignment(
                column(paths@, i - 1),
                chords@[i].spec_pitches(),
                voices as int,
                #[trigger] column(paths@, i),
            ) by {
                assert(column(paths@, i) == columns@[i]@);
                assert(column(paths@, i - 1) == columns@[i - 1]@);
            }
            assert forall|w: int, i: int|
                0 <= w < voices && 0 <= i < n implies chords@[i].spec_pitches().contains(
                #[trigger] paths@[w]@[i],
            ) by {
                assert(paths@[w]@[i] == columns@[i]@[w]);
            }
            if same_chord_throughout(chords@) && n > 0 && (voices > 4 || distinct_classes(chords@[0])) {
                assert forall|w: int, i: int|
                    0 <= w < voices && 0 <= i < n implies #[trigger] paths@[w]@[i] == paths@[w]@[0] by {
                    assert(paths@[w]@[i] == columns@[i]@[w]);
                    assert(paths@[w]@[0] == columns@[0]@[w]);
                }
            }
            if same_chord_throughout(chords@) {
                assert forall|w: int| 0 <= w < voices implies path_movement(
                    (#[trigger] paths@[w])@,
                    paths@[w]@.len() as int,
                ) == 0 by {
                    let path = paths@[w]@;
                    assert forall|i: int| 1 <= i < path.len() implies #[trigger] pitch_distance(
                        path[i - 1],
                        path[i],
                    ) == 0 by {
                        assert(path[i] == columns@[i]@[w]);
                        assert(path[i - 1] == columns@[i - 1]@[w]);
                    }
                    lemma_zero_steps_no_movement(path, path.len() as int);
                }
                lemma_still_paths_no_movement(paths@, voices as int);
            }
        }
        SplineVoiceLeading { voices, chords, paths }
    }

    /// Generate MIDI-like voice events: for each chord in turn, one event per
    /// voice whose path reaches that chord, at the chord's beat, one beat long.
    pub fn to_events(&self) -> (events: Vec<VoiceEvent>)
        requires
            self.chords@.len() == 0 || self.voices <= self.paths@.len(),
        ensures
            events@ == events_before(self.paths@, self.voices as int, self.chords@.len() as int),
            (forall|v: int| 0 <= v < self.voices ==> (#[trigger] self.paths@[v])@.len() >= self.chords@.len())
                ==> events@.len() == self.chords@.len() * self.voices,
            forall|n: int|
                0 <= n < events@.len() ==> {
                    let e = #[trigger] events@[n];
                    &&& e.time < self.chords@.len()
                    &&& e.voice < self.voices
                    &&& e.time < self.paths@[e.voice as int]@.len()
                    &&& e.pitch == self.paths@[e.voice as int]@[e.time as int]
                    &&& e.duration == 1
                },
            forall|n: int, m: int|
                0 <= n < m < events@.len() ==> (#[trigger] events@[n]).time < (
                #[trigger] events@[m]).time || (events@[n].time == events@[m].time
                    && events@[n].voice < events@[m].voice),
    {
        let mut events: Vec<VoiceEvent> = Vec::new();
        let beat_duration: usize = 1;
        let mut chord_idx: usize = 0;
        while chord_idx < self.chords.len()
            invariant
                self.chords@.len() == 0 || self.voices <= self.paths@.len(),
                beat_duration == 1,
                chord_idx <= self.chords@.len(),
                events@ == events_before(self.paths@, self.voices as int, chord_idx as int),
            decreases self.chords@.len() - chord_idx,
        {
            let time = chord_idx;
            let ghost before = events@;
            let mut v: usize = 0;
            while v < self.voices
                invariant
                    self.voices <= self.paths@.len(),
                    v <= self.voices,
                    chord_idx < self.chords@.len(),
                    time == chord_idx,
                    beat_duration == 1,
                    events@ == before + chord_events(self.paths@, chord_idx as int, v as int),
                decreases self.voices - v,
            {
                if chord_idx < self.paths[v].len() {
                    events.push(
                        VoiceEvent {
                            time,
                            voice: v,
                            pitch: self.paths[v][chord_idx],
                            duration: beat_duration,
                        },
                    );
                }
                v = v + 1;
                proof {
                    assert(events@ =~= before + chord_events(self.paths@, chord_idx as int, v as int));
                }
            }
            chord_idx = chord_idx + 1;
        }
        proof {
            if forall|v: int| 0 <= v < self.voices ==> (#[trigger] self.paths@[v])@.len() >= self.chords@.len() {
                if self.chords@.len() == 0 {
                    assert(events@.len() == 0);
                    assert(self.chords@.len() * self.voices == 0) by (nonlinear_arith)
                        requires
                            self.chords@.len() == 0,
                    ;
                } else {
                    lemma_events_count(self.paths@, self.voices as int, self.chords@.len() as int);
                }
            }
            assert forall|n: int| 0 <= n < events@.len() implies {
                let e = #[trigger] events@[n];
                &&& e.time < self.chords@.len()
                &&& e.voice < self.voices
                &&& e.time < self.paths@[e.voice as int]@.len()
                &&& e.pitch == self.paths@[e.voice as int]@[e.time as int]
                &&& e.duration == 1
            } by {
                lemma_events_carry_their_pitch(
                    self.paths@,
                    self.voices as int,
                    self.chords@.len() as int,
                    n,
                );
            }
            assert forall|n: int, m: int| 0 <= n < m < events@.len() implies (
            #[trigger] events@[n]).time < (#[trigger] events@[m]).time || (events@[n].time
                == events@[m].time && events@[n].voice < events@[m].voice) by {
                lemma_events_in_order(
                    self.paths@,
                    self.voices as int,
                    self.chords@.len() as int,
                    n,
                    m,
                );
            }
        }
        events
    }

    /// Total voice-leading cost: the movement, going the short way round the
    /// octave, of every voice from each of its points to the next.
    pub fn total_cost(&self) -> (total: u64)
        requires
            self.voices <= self.paths@.len(),
            paths_fit(self.paths@, self.voices as int),
            6 * total_points(self.paths@, self.voices as int) <= u64::MAX,
        ensures
            total == total_movement(self.paths@, self.voices as int),
    {
        let mut total: u64 = 0;
        let mut v: usize = 0;
        while v < self.voices
            invariant
                self.voices <= self.paths@.len(),
                paths_fit(self.paths@, self.voices as int),
                6 * total_points(self.paths@, self.voices as int) <= u64::MAX,
                v <= self.voices,
                total == total_movement(self.paths@, v as int),
                total <= 6 * total_points(self.paths@, v as int),
            decreases self.voices - v,
        {
            let path = &self.paths[v];
            assert(path@ == self.paths@[v as int]@);
            let mut i: usize = 1;
            let ghost base = total as int;
            proof {
                lemma_total_points_monotone(self.paths@, v as int + 1, self.voices as int);
            }
            while i < path.len()
                invariant
                    v < self.voices,
                    self.voices <= self.paths@.len(),
                    path@ == self.paths@[v as int]@,
                    paths_fit(self.paths@, self.voices as int),
                    1 <= i,
                    i <= path@.len() || (path@.len() == 0 && i == 1),
                    base <= 6 * total_points(self.paths@, v as int),
                    6 * (total_points(self.paths@, v as int) + path@.len()) <= u64::MAX,
                    total == base + path_movement(path@, i as int),
                    path_movement(path@, i as int) <= 6 * i,
                decreases path@.len() - i,
            {
                proof {
                    assert(interval_fits(path@[i - 1].midi, path@[i as int].midi));
                }
                let d = distance(&path[i - 1], &path[i]);
                total = total + d as u64;
                i = i + 1;
            }
            proof {
                if path@.len() == 0 {
                    assert(path_movement(path@, 0) == 0);
                    assert(path_movement(path@, 1) == 0);
                } else {
                    assert(i == path@.len());
                }
                assert(path_movement(path@, path@.len() as int) == path_movement(path@, i as int));
                assert(total_movement(self.paths@, v + 1) == total_movement(self.paths@, v as int)
                    + path_movement(path@, path@.len() as int));
                assert(total_points(self.paths@, v + 1) == total_points(self.paths@, v as int)
                    + path@.len());
            }
            v = v + 1;
        }
        total
    }

    /// Curvature of each voice's path, summed: for every point with a point
    /// on either side, |next - 2 * point + previous| in semitones (0 for a
    /// path of fewer than three points).
    pub fn curvature_totals(&self) -> (c: Vec<u128>)
        requires
            self.voices <= self.paths@.len(),
        ensures
            c@.len() == self.voices,
            forall|v: int|
                0 <= v < self.voices ==> #[trigger] c@[v] == curvature_sum(
                    self.paths@[v]@,
                    self.paths@[v]@.len() as int,
                ),
    {
        let mut out: Vec<u128> = Vec::new();
        let mut v: usize = 0;
        while v < self.voices
            invariant
                self.voices <= self.paths@.len(),
                v <= self.voices,
                out@.len() == v,
                forall|w: int|
                    0 <= w < v ==> #[trigger] out@[w] == curvature_sum(
                        self.paths@[w]@,
                        self.paths@[w]@.len() as int,
                    ),
            decreases self.voices - v,
        {
            let path = &self.paths[v];
            assert(path@ == self.paths@[v as int]@);
            let mut total: u128 = 0;
            let mut k: usize = 2;
            while k < path.len()
                invariant
                    v < self.voices,
                    self.voices <= self.paths@.len(),
                    path@ == self.paths@[v as int]@,
                    2 <= k,
                    k <= path@.len() || (path@.len() < 2 && k == 2),
                    total == curvature_sum(path@, k as int),
                    total <= 510 * k,
                decreases path@.len() - k,
            {
                let a = path[k - 2].midi as u128;
                let b = 2 * path[k - 1].midi as u128;
                let c = path[k].midi as u128;
                let d: u128 = if a + c >= b {
                    a + c - b
                } else {
                    b - (a + c)
                };
                total = total + d;
                k = k + 1;
            }
            proof {
                if path@.len() >= 2 {
                    assert(k == path@.len());
                } else {
                    assert(curvature_sum(path@, path@.len() as int) == 0);
                }
            }
            out.push(total);
            v = v + 1;
        }
        out
    }
}

/// Points on paths only add up.
pub proof fn lemma_total_points_monotone(paths: Seq<Vec<Pitch>>, a: int, b: int)
    requires
        0 <= a <= b,
    ensures
        total_points(paths, a) <= total_points(paths, b),
    decreases b - a,
{
    if a < b {
        lemma_total_points_monotone(paths, a, b - 1);
    }
}


// ---------------------------------------------------------------------------
// Laws
// ---------------------------------------------------------------------------

/// While some target is still unclaimed, the greedy assignment never gives
/// two voices the same target: the first `m` voices (for `m` targets) all get
/// targets of their own.
pub proof fn lemma_greedy_picks_distinct(
    pos: Seq<Pitch>,
    tg: Seq<Pitch>,
    picks: Seq<usize>,
    i: int,
    j: int,
)
    requires
        is_greedy_sequence(pos, tg, picks),
        0 <= i < j < picks.len(),
        j < tg.len(),
        tg.len() <= usize::MAX,
    ensures
        picks[i] != picks[j],
{
    let m = tg.len() as int;
    let prev = picks.subrange(0, j);
    assert(is_greedy_pick(pos[j], tg, prev, picks[j] as int));
    if all_claimed(prev, m) {
        let t = prev.map_values(|x: usize| x as int);
        assert forall|k: int| set_int_range(0, m).contains(k) implies t.to_set().contains(k) by {
            assert(prev.contains(k as usize));
            let idx = choose|idx: int| 0 <= idx < prev.len() && prev[idx] == k as usize;
            assert(t[idx] == k);
        }
        lemma_int_range(0, m);
        t.lemma_cardinality_of_set();
        seq_to_set_is_finite(t);
        lemma_len_subset(set_int_range(0, m), t.to_set());
        assert(false);
    }
    assert(!prev.contains(picks[j]));
    assert(prev[i] == picks[i]);
}

/// Each chord whose path reaches it gives one event per voice: with every
/// path reaching the first `k` chords there are `k * voices` events.
pub proof fn lemma_events_count(paths: Seq<Vec<Pitch>>, voices: int, k: int)
    requires
        0 <= voices <= paths.len(),
        k >= 0,
        forall|v: int| 0 <= v < voices ==> (#[trigger] paths[v])@.len() >= k,
    ensures
        events_before(paths, voices, k).len() == k * voices,
    decreases k,
{
    if k > 0 {
        lemma_events_count(paths, voices, k - 1);
        lemma_chord_events_count(paths, k - 1, voices);
        assert(events_before(paths, voices, k).len() == events_before(paths, voices, k - 1).len()
            + voices);
        assert((k - 1) * voices + voices == k * voices) by (nonlinear_arith);
    } else {
        assert(k * voices == 0) by (nonlinear_arith)
            requires
                k == 0,
        ;
    }
}

/// A chord that every one of the first `v` paths reaches has `v` events.
pub proof fn lemma_chord_events_count(paths: Seq<Vec<Pitch>>, c: int, v: int)
    requires
        0 <= v <= paths.len(),
        forall|w: int| 0 <= w < v ==> (#[trigger] paths[w])@.len() > c,
    ensures
        chord_events(paths, c, v).len() == v,
    decreases v,
{
    if v > 0 {
        lemma_chord_events_count(paths, c, v - 1);
    }
}

/// A path that moves by one constant step (a straight line in pitch space)
/// has no curvature.
pub proof fn lemma_constant_step_no_curvature(path: Seq<Pitch>, step: int, k: int)
    requires
        0 <= k <= path.len(),
        forall|i: int| 0 < i < path.len() ==> #[trigger] path[i].midi == path[i - 1].midi + step,
    ensures
        curvature_sum(path, k) == 0,
    decreases k,
{
    if k >= 3 {
        lemma_constant_step_no_curvature(path, step, k - 1);
        assert(path[k - 1].midi == path[k - 2].midi + step);
        assert(path[k - 2].midi == path[k - 3].midi + step);
    }
}

/// Curvature does not change when a path is transposed: moving every point
/// by the same number of semitones leaves it as it was.
pub proof fn lemma_curvature_transposed(p: Seq<Pitch>, q: Seq<Pitch>, t: int, k: int)
    requires
        p.len() == q.len(),
        0 <= k <= p.len(),
        forall|i: int| 0 <= i < p.len() ==> #[trigger] q[i].midi == p[i].midi + t,
    ensures
        curvature_sum(q, k) == curvature_sum(p, k),
    decreases k,
{
    if k >= 3 {
        lemma_curvature_transposed(p, q, t, k - 1);
        assert(q[k - 1].midi == p[k - 1].midi + t);
        assert(q[k - 2].midi == p[k - 2].midi + t);
        assert(q[k - 3].midi == p[k - 3].midi + t);
    }
}

/// A path that goes out and comes straight back (a, b, a) bends by twice
/// the distance it went: each interior point adds |next - 2 * point +
/// previous|.
pub proof fn lemma_curvature_of_a_turn(path: Seq<Pitch>)
    requires
        path.len() == 3,
        path[2].midi == path[0].midi,
    ensures
        curvature_sum(path, 3) == 2 * (if path[1].midi >= path[0].midi {
            path[1].midi - path[0].midi
        } else {
            path[0].midi - path[1].midi
        }),
{
    assert(curvature_sum(path, 2) == 0);
}

/// A path of fewer than three points has no interior point and so no
/// curvature, and appending a point adds the bend at the point before it.
pub proof fn lemma_curvature_step(path: Seq<Pitch>, k: int)
    requires
        3 <= k <= path.len(),
    ensures
        curvature_sum(path, 2) == 0,
        curvature_sum(path, k) - curvature_sum(path, k - 1) == if path[k - 1].midi + path[k
            - 3].midi >= 2 * path[k - 2].midi {
            path[k - 1].midi + path[k - 3].midi - 2 * path[k - 2].midi
        } else {
            2 * path[k - 2].midi - path[k - 1].midi - path[k - 3].midi
        },
{
}

/// Every event that `to_events` produces names a voice, a chord and the
/// pitch of that voice at that chord: the event of voice `v` at chord `c`
/// carries `paths[v][c]`, lasts one beat and sounds at beat `c`.
pub proof fn lemma_events_carry_their_pitch(paths: Seq<Vec<Pitch>>, voices: int, k: int, n: int)
    requires
        0 <= voices <= paths.len(),
        voices <= usize::MAX,
        0 <= k <= usize::MAX,
        0 <= n < events_before(paths, voices, k).len(),
    ensures
        ({
            let e = events_before(paths, voices, k)[n];
            &&& e.time < k
            &&& e.voice < voices
            &&& e.time < paths[e.voice as int]@.len()
            &&& e.pitch == paths[e.voice as int]@[e.time as int]
            &&& e.duration == 1
        }),
    decreases k,
{
    let prev = events_before(paths, voices, k - 1);
    let last = chord_events(paths, k - 1, voices);
    assert(events_before(paths, voices, k) == prev + last);
    if n < prev.len() {
        lemma_events_carry_their_pitch(paths, voices, k - 1, n);
        assert(events_before(paths, voices, k)[n] == prev[n]);
    } else {
        lemma_chord_events_carry_their_pitch(paths, k - 1, voices, n - prev.len());
        assert(events_before(paths, voices, k)[n] == last[n - prev.len()]);
    }
}

/// Events come chord by chord, and within a chord voice by voice: of two
/// events the earlier one is at an earlier beat, or at the same beat for a
/// lower voice.
pub proof fn lemma_events_in_order(paths: Seq<Vec<Pitch>>, voices: int, k: int, n: int, m: int)
    requires
        0 <= voices <= paths.len(),
        voices <= usize::MAX,
        0 <= k <= usize::MAX,
        0 <= n < m < events_before(paths, voices, k).len(),
    ensures
        events_before(paths, voices, k)[n].time < events_before(paths, voices, k)[m].time || (
        events_before(paths, voices, k)[n].time == events_before(paths, voices, k)[m].time
            && events_before(paths, voices, k)[n].voice < events_before(paths, voices, k)[m].voice),
    decreases k,
{
    let prev = events_before(paths, voices, k - 1);
    let last = chord_events(paths, k - 1, voices);
    let all = events_before(paths, voices, k);
    assert(all == prev + last);
    if m < prev.len() {
        lemma_events_in_order(paths, voices, k - 1, n, m);
        assert(all[n] == prev[n]);
        assert(all[m] == prev[m]);
    } else if n < prev.len() {
        lemma_events_carry_their_pitch(paths, voices, k - 1, n);
        lemma_chord_events_carry_their_pitch(paths, k - 1, voices, m - prev.len());
        assert(all[n] == prev[n]);
        assert(all[m] == last[m - prev.len()]);
    } else {
        lemma_chord_events_in_order(paths, k - 1, voices, n - prev.len(), m - prev.len());
        lemma_chord_events_carry_their_pitch(paths, k - 1, voices, n - prev.len());
        lemma_chord_events_carry_their_pitch(paths, k - 1, voices, m - prev.len());
        assert(all[n] == last[n - prev.len()]);
        assert(all[m] == last[m - prev.len()]);
    }
}

/// The events of one chord come in rising voice order.
pub proof fn lemma_chord_events_in_order(paths: Seq<Vec<Pitch>>, c: int, v: int, n: int, m: int)
    requires
        0 <= v <= paths.len(),
        v <= usize::MAX,
        0 <= c <= usize::MAX,
        0 <= n < m < chord_events(paths, c, v).len(),
    ensures
        chord_events(paths, c, v)[n].voice < chord_events(paths, c, v)[m].voice,
    decreases v,
{
    let prev = chord_events(paths, c, v - 1);
    if c < paths[v - 1]@.len() {
        let ev = VoiceEvent { time: c as usize, voice: (v - 1) as usize, pitch: paths[v - 1]@[c], duration: 1 };
        assert(chord_events(paths, c, v) == prev.push(ev));
        if m < prev.len() {
            lemma_chord_events_in_order(paths, c, v - 1, n, m);
        } else {
            lemma_chord_events_carry_their_pitch(paths, c, v - 1, n);
        }
    } else {
        assert(chord_events(paths, c, v) == prev);
        lemma_chord_events_in_order(paths, c, v - 1, n, m);
    }
}

/// The events of one chord `c`, in voice order, each carry the pitch of the
/// voice they name at that chord.
pub proof fn lemma_chord_events_carry_their_pitch(paths: Seq<Vec<Pitch>>, c: int, v: int, n: int)
    requires
        0 <= v <= paths.len(),
        v <= usize::MAX,
        0 <= c <= usize::MAX,
        0 <= n < chord_events(paths, c, v).len(),
    ensures
        ({
            let e = chord_events(paths, c, v)[n];
            &&& e.time == c
            &&& e.voice < v
            &&& c < paths[e.voice as int]@.len()
            &&& e.pitch == paths[e.voice as int]@[c]
            &&& e.duration == 1
        }),
    decreases v,
{
    if v > 0 {
        let prev = chord_events(paths, c, v - 1);
        if c < paths[v - 1]@.len() {
            let ev = VoiceEvent { time: c as usize, voice: (v - 1) as usize, pitch: paths[v - 1]@[c], duration: 1 };
            assert(chord_events(paths, c, v) == prev.push(ev));
            if n < prev.len() {
                lemma_chord_events_carry_their_pitch(paths, c, v - 1, n);
            }
        } else {
            assert(chord_events(paths, c, v) == prev);
            lemma_chord_events_carry_their_pitch(paths, c, v - 1, n);
        }
    }
}

/// Distances are never negative, and a pitch is no distance from itself.
pub proof fn lemma_pitch_distance_basics(p: Pitch, q: Pitch)
    ensures
        pitch_distance(p, q) >= 0,
        pitch_distance(p, p) == 0,
{
}

/// The total movement of an assignment is a sum of non-negative terms, so it
/// is zero only when every voice stays where it is (distance zero).
pub proof fn lemma_zero_cost_assignment(pos: Seq<Pitch>, tg: Seq<Pitch>, a: Seq<usize>, k: int)
    requires
        k >= 0,
        assignment_cost(pos, tg, a, k) == 0,
    ensures
        forall|i: int| 0 <= i < k ==> #[trigger] pitch_distance(pos[i], tg[a[i] as int]) == 0,
    decreases k,
{
    if k > 0 {
        lemma_assignment_cost_bound(pos, tg, a, k - 1);
        lemma_zero_cost_assignment(pos, tg, a, k - 1);
    }
}

/// Voicing a chord from its own first voicing keeps every voice where it
/// is, when the voices are more than four (the greedy choice) or the chord's
/// pitches lie in different pitch classes.
pub proof fn lemma_repeated_chord_stays(c: Chord, voices: int, result: Seq<Pitch>)
    requires
        voices > 4 || distinct_classes(c),
        0 <= voices <= usize::MAX,
        is_minimal_assignment(
            initial_voicing(c.spec_pitches(), voices),
            c.spec_pitches(),
            voices,
            result,
        ),
    ensures
        result == initial_voicing(c.spec_pitches(), voices),
{
    if voices <= 4 {
        lemma_repeated_chord_stays_exhaustive(c, voices, result);
    } else {
        lemma_repeated_chord_stays_greedy(c, voices, result);
    }
}

/// The exhaustive search from a chord's own first voicing keeps every voice:
/// staying costs nothing, and only staying costs nothing.
proof fn lemma_repeated_chord_stays_exhaustive(c: Chord, voices: int, result: Seq<Pitch>)
    requires
        distinct_classes(c),
        0 <= voices <= 4,
        is_minimal_assignment(
            initial_voicing(c.spec_pitches(), voices),
            c.spec_pitches(),
            voices,
            result,
        ),
    ensures
        result == initial_voicing(c.spec_pitches(), voices),
{
    lemma_chord_has_three_pitches(c);
    let ps = c.spec_pitches();
    let m = ps.len() as int;
    let cur = initial_voicing(ps, voices);
    let a = choose|a: Seq<usize>|
        #[trigger] is_first_cheapest(cur, ps, voices, a) && result == a.map_values(
            |j: usize| ps[j as int],
        );
    let id = Seq::new(voices as nat, |i: int| first_pitch_index(i, m) as usize);
    assert forall|i: int| 0 <= i < m implies #[trigger] pitch_distance(ps[i], ps[i]) == 0 by {
        lemma_pitch_distance_basics(ps[i], ps[i]);
    }
    assert forall|i: int| 0 <= i < cur.len() implies #[trigger] cur[i] == ps[first_pitch_index(i, m)] by {}
    lemma_identity_cost(cur, ps, id, voices, m);
    assert(is_assignment(id, voices, m));
    lemma_assignment_cost_bound(cur, ps, a, voices);
    lemma_zero_cost_assignment(cur, ps, a, voices);
    assert forall|i: int| 0 <= i < voices implies result[i] == cur[i] by {
        assert(pitch_distance(cur[i], ps[a[i] as int]) == 0);
        assert(cur[i] == ps[first_pitch_index(i, m)]);
        if first_pitch_index(i, m) != a[i] as int {
            assert(pitch_distance(ps[first_pitch_index(i, m)], ps[a[i] as int]) != 0);
        }
    }
    assert(result =~= cur);
}

/// From voices that all stand on pitches of a chord, the exhaustive search
/// for that chord moves no voice any distance: standing still costs nothing.
proof fn lemma_exhaustive_step_costs_nothing(c: Chord, voices: int, prev: Seq<Pitch>, result: Seq<Pitch>)
    requires
        0 <= voices <= 4,
        prev.len() == voices,
        forall|v: int| 0 <= v < voices ==> c.spec_pitches().contains(#[trigger] prev[v]),
        is_minimal_assignment(prev, c.spec_pitches(), voices, result),
    ensures
        forall|v: int| 0 <= v < voices ==> #[trigger] pitch_distance(prev[v], result[v]) == 0,
{
    lemma_chord_has_three_pitches(c);
    lemma_chord_pitch_count(c);
    let ps = c.spec_pitches();
    let m = ps.len() as int;
    let a = choose|a: Seq<usize>|
        #[trigger] is_first_cheapest(prev, ps, voices, a) && result == a.map_values(
            |j: usize| ps[j as int],
        );
    let own = Seq::new(voices as nat, |v: int| (choose|t: int| 0 <= t < m && ps[t] == prev[v]) as usize);
    assert forall|v: int| 0 <= v < voices implies #[trigger] own[v] < m && ps[own[v] as int] == prev[v] by {
        assert(ps.contains(prev[v]));
        let t = choose|t: int| 0 <= t < m && ps[t] == prev[v];
        assert(0 <= t < m && ps[t] == prev[v]);
    }
    assert(is_assignment(own, voices, m));
    lemma_own_cost(prev, ps, own, voices);
    lemma_assignment_cost_bound(prev, ps, a, voices);
    lemma_zero_cost_assignment(prev, ps, a, voices);
    assert forall|v: int| 0 <= v < voices implies #[trigger] pitch_distance(prev[v], result[v]) == 0 by {
        assert(result[v] == ps[a[v] as int]);
    }
}

/// Sending each voice to the pitch it stands on costs nothing.
proof fn lemma_own_cost(cur: Seq<Pitch>, ps: Seq<Pitch>, own: Seq<usize>, k: int)
    requires
        0 <= k <= own.len(),
        own.len() <= cur.len(),
        forall|v: int| 0 <= v < own.len() ==> #[trigger] own[v] < ps.len() && ps[own[v] as int] == cur[v],
    ensures
        assignment_cost(cur, ps, own, k) == 0,
    decreases k,
{
    if k > 0 {
        lemma_own_cost(cur, ps, own, k - 1);
        assert(ps[own[k - 1] as int] == cur[k - 1]);
        lemma_pitch_distance_basics(cur[k - 1], cur[k - 1]);
    }
}

/// The greedy choices from a chord's own first voicing keep every voice.
proof fn lemma_repeated_chord_stays_greedy(c: Chord, voices: int, result: Seq<Pitch>)
    requires
        4 < voices <= usize::MAX,
        is_minimal_assignment(
            initial_voicing(c.spec_pitches(), voices),
            c.spec_pitches(),
            voices,
            result,
        ),
    ensures
        result == initial_voicing(c.spec_pitches(), voices),
{
    lemma_chord_has_three_pitches(c);
    let ps = c.spec_pitches();
    let m = ps.len() as int;
    let cur = initial_voicing(ps, voices);
    let picks = choose|picks: Seq<usize>|
        picks.len() == voices && #[trigger] is_greedy_sequence(cur, ps, picks) && result
            == picks.map_values(|j: usize| ps[j as int]);
    lemma_greedy_follows_voicing(c, voices, picks, voices);
    assert forall|i: int| 0 <= i < voices implies result[i] == cur[i] by {
        assert(picks[i] as int == first_pitch_index(i, m));
    }
    assert(result =~= cur);
}

/// The assignment that sends each voice to the pitch it stands on costs
/// nothing.
proof fn lemma_identity_cost(cur: Seq<Pitch>, ps: Seq<Pitch>, id: Seq<usize>, k: int, m: int)
    requires
        m >= 1,
        m == ps.len(),
        0 <= k <= id.len(),
        id.len() <= cur.len(),
        forall|i: int| 0 <= i < id.len() ==> #[trigger] id[i] as int == first_pitch_index(i, m),
        forall|i: int| 0 <= i < cur.len() ==> #[trigger] cur[i] == ps[first_pitch_index(i, m)],
        forall|i: int| 0 <= i < m ==> #[trigger] pitch_distance(ps[i], ps[i]) == 0,
    ensures
        assignment_cost(cur, ps, id, k) == 0,
    decreases k,
{
    if k > 0 {
        lemma_identity_cost(cur, ps, id, k - 1, m);
        assert(cur[k - 1] == ps[first_pitch_index(k - 1, m)]);
        assert(id[k - 1] as int == first_pitch_index(k - 1, m));
    }
}

/// The greedy choices from a chord's own first voicing send each voice to
/// the pitch it stands on: that pitch is no distance away, and every pitch
/// before it in the chord is taken (or, for the voices that double the
/// root, it comes first).
#[verifier::rlimit(50)]
proof fn lemma_greedy_follows_voicing(c: Chord, voices: int, picks: Seq<usize>, k: int)
    requires
        0 <= k <= picks.len(),
        picks.len() == voices,
        voices <= usize::MAX,
        is_greedy_sequence(initial_voicing(c.spec_pitches(), voices), c.spec_pitches(), picks),
    ensures
        forall|i: int|
            0 <= i < k ==> #[trigger] picks[i] as int == first_pitch_index(i, c.spec_pitches().len() as int),
    decreases k,
{
    lemma_chord_has_three_pitches(c);
    let ps = c.spec_pitches();
    let m = ps.len() as int;
    let cur = initial_voicing(ps, voices);
    if k > 0 {
        lemma_greedy_follows_voicing(c, voices, picks, k - 1);
        let i = k - 1;
        let prev = picks.subrange(0, i);
        let j = picks[i] as int;
        assert(is_greedy_pick(cur[i], ps, prev, j));
        let own = first_pitch_index(i, m);
        assert(cur[i] == ps[own]);
        lemma_pitch_distance_basics(ps[own], ps[own]);
        lemma_pitch_distance_basics(ps[own], ps[j]);
        if i < m {
            assert(!prev.contains(own as usize)) by {
                if prev.contains(own as usize) {
                    let idx = choose|idx: int| 0 <= idx < prev.len() && prev[idx] == own as usize;
                    assert(prev[idx] == picks[idx]);
                    assert(picks[idx] as int == first_pitch_index(idx, m));
                }
            }
            assert(!all_claimed(prev, m));
            assert(may_take(prev, m, own));
            if j < own {
                assert(prev[j] == picks[j]);
                assert(picks[j] as int == first_pitch_index(j, m));
                assert(prev.contains(j as usize));
                assert(!may_take(prev, m, j));
            }
        } else {
            assert forall|t: usize| t < m implies #[trigger] prev.contains(t) by {
                assert(picks[t as int] as int == first_pitch_index(t as int, m));
                assert(prev[t as int] == t);
            }
            assert(all_claimed(prev, m));
            assert(may_take(prev, m, own));
        }
        assert(pitch_distance(cur[i], ps[j]) <= pitch_distance(cur[i], ps[own]));
        if own < j {
            assert(pitch_distance(cur[i], ps[j]) < pitch_distance(cur[i], ps[own]));
        }
    }
}

/// Paths that do not move add up to no movement.
pub proof fn lemma_still_paths_no_movement(paths: Seq<Vec<Pitch>>, v: int)
    requires
        0 <= v <= paths.len(),
        forall|w: int| 0 <= w < v ==> path_movement((#[trigger] paths[w])@, paths[w]@.len() as int) == 0,
    ensures
        total_movement(paths, v) == 0,
    decreases v,
{
    if v > 0 {
        lemma_still_paths_no_movement(paths, v - 1);
    }
}

/// A path whose every step is a zero distance does not move.
pub proof fn lemma_zero_steps_no_movement(path: Seq<Pitch>, k: int)
    requires
        0 <= k <= path.len(),
        forall|i: int| 1 <= i < path.len() ==> pitch_distance(path[i - 1], #[trigger] path[i]) == 0,
    ensures
        path_movement(path, k) == 0,
    decreases k,
{
    if k > 1 {
        lemma_zero_steps_no_movement(path, k - 1);
        let i = k - 1;
        assert(pitch_distance(path[i - 1], path[i]) == 0);
    }
}


/// Two different sequences of the same length are ordered one way or the
/// other (given that they agree on their first `i` entries).
proof fn lemma_lex_total_from(a: Seq<usize>, b: Seq<usize>, i: int)
    requires
        a.len() == b.len(),
        a != b,
        0 <= i <= a.len(),
        a.subrange(0, i) == b.subrange(0, i),
    ensures
        lex_less(a, b) || lex_less(b, a),
    decreases a.len() - i,
{
    if i == a.len() {
        assert(a =~= a.subrange(0, i));
        assert(b =~= b.subrange(0, i));
    } else if a[i] != b[i] {
        if a[i] < b[i] {
            assert(lex_less(a, b));
        } else {
            assert(lex_less(b, a));
        }
    } else {
        assert(a.subrange(0, i + 1) =~= a.subrange(0, i).push(a[i]));
        assert(b.subrange(0, i + 1) =~= b.subrange(0, i).push(b[i]));
        lemma_lex_total_from(a, b, i + 1);
    }
}

/// Lexicographic order is total on sequences of the same length.
pub proof fn lemma_lex_total(a: Seq<usize>, b: Seq<usize>)
    requires
        a.len() == b.len(),
        a != b,
    ensures
        lex_less(a, b) || lex_less(b, a),
{
    assert(a.subrange(0, 0) =~= b.subrange(0, 0));
    lemma_lex_total_from(a, b, 0);
}

/// There is only one first cheapest assignment.
pub proof fn lemma_first_cheapest_unique(
    pos: Seq<Pitch>,
    tg: Seq<Pitch>,
    n: int,
    a: Seq<usize>,
    b: Seq<usize>,
)
    requires
        is_first_cheapest(pos, tg, n, a),
        is_first_cheapest(pos, tg, n, b),
    ensures
        a == b,
{
    if a != b {
        lemma_lex_total(a, b);
        let ca = assignment_cost(pos, tg, a, n);
        let cb = assignment_cost(pos, tg, b, n);
        if lex_less(a, b) {
            assert(cb < ca);
        } else {
            assert(ca < cb);
        }
    }
}

/// The greedy choice after given earlier choices is unique.
pub proof fn lemma_greedy_pick_unique(p: Pitch, tg: Seq<Pitch>, prev: Seq<usize>, j1: int, j2: int)
    requires
        is_greedy_pick(p, tg, prev, j1),
        is_greedy_pick(p, tg, prev, j2),
    ensures
        j1 == j2,
{
    if j1 < j2 {
        assert(pitch_distance(p, tg[j2]) < pitch_distance(p, tg[j1]));
    } else if j2 < j1 {
        assert(pitch_distance(p, tg[j1]) < pitch_distance(p, tg[j2]));
    }
}

/// The greedy choices of all voices are unique.
pub proof fn lemma_greedy_sequence_unique(
    pos: Seq<Pitch>,
    tg: Seq<Pitch>,
    a: Seq<usize>,
    b: Seq<usize>,
    k: int,
)
    requires
        a.len() == b.len(),
        0 <= k <= a.len(),
        is_greedy_sequence(pos, tg, a),
        is_greedy_sequence(pos, tg, b),
    ensures
        a.subrange(0, k) == b.subrange(0, k),
    decreases k,
{
    if k > 0 {
        lemma_greedy_sequence_unique(pos, tg, a, b, k - 1);
        assert(is_greedy_pick(pos[k - 1], tg, a.subrange(0, k - 1), a[k - 1] as int));
        assert(is_greedy_pick(pos[k - 1], tg, b.subrange(0, k - 1), b[k - 1] as int));
        lemma_greedy_pick_unique(pos[k - 1], tg, a.subrange(0, k - 1), a[k - 1] as int, b[k - 1] as int);
        assert(a.subrange(0, k) =~= a.subrange(0, k - 1).push(a[k - 1]));
        assert(b.subrange(0, k) =~= b.subrange(0, k - 1).push(b[k - 1]));
    }
}

/// The minimal assignment of the voices to a chord is unique: the contract
/// of `minimal_assignment` determines its result.
pub proof fn lemma_minimal_assignment_unique(
    current: Seq<Pitch>,
    tg: Seq<Pitch>,
    voices: int,
    r1: Seq<Pitch>,
    r2: Seq<Pitch>,
)
    requires
        is_minimal_assignment(current, tg, voices, r1),
        is_minimal_assignment(current, tg, voices, r2),
    ensures
        r1 == r2,
{
    if voices <= 4 {
        let a = choose|a: Seq<usize>|
            #[trigger] is_first_cheapest(current, tg, voices, a) && r1 == a.map_values(
                |j: usize| tg[j as int],
            );
        let b = choose|b: Seq<usize>|
            #[trigger] is_first_cheapest(current, tg, voices, b) && r2 == b.map_values(
                |j: usize| tg[j as int],
            );
        lemma_first_cheapest_unique(current, tg, voices, a, b);
    } else {
        let a = choose|a: Seq<usize>|
            a.len() == voices && #[trigger] is_greedy_sequence(current, tg, a) && r1
                == a.map_values(|j: usize| tg[j as int]);
        let b = choose|b: Seq<usize>|
            b.len() == voices && #[trigger] is_greedy_sequence(current, tg, b) && r2
                == b.map_values(|j: usize| tg[j as int]);
        lemma_greedy_sequence_unique(current, tg, a, b, voices);
        assert(a =~= a.subrange(0, voices));
        assert(b =~= b.subrange(0, voices));
    }
}

} // verus!
