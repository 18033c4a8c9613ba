//! Technique diagnostics from the dense pitch trail: in-note pitch
//! stability, attack settling, sustain drift on long notes, and the
//! endurance trend over the whole result list.

use vstd::prelude::*;
use crate::num::{abs_int, div_trunc, div_trunc_i64, isqrt_u128};
use crate::matching::cents_between;
use crate::types::{
    NoteEvent, NoteResult, PitchTrailPoint, TechniqueFeedback, LIST_LIMIT, MIDI_LIMIT,
    MIDI_MILLI_LIMIT,
};

verus! {

/// The trail points whose beat lies in `[start, end)`, in trail order.
pub open spec fn note_points(trail: Seq<PitchTrailPoint>, start: int, end: int)
    -> Seq<PitchTrailPoint>
    decreases trail.len(),
{
    if trail.len() == 0 {
        Seq::empty()
    } else {
        let prev = note_points(trail.drop_last(), start, end);
        let p = trail.last();
        if start <= p.beat_milli && (p.beat_milli as int) < end {
            prev.push(p)
        } else {
            prev
        }
    }
}

/// The trail points belonging to one target note.
pub open spec fn tech_points(trail: Seq<PitchTrailPoint>, t: NoteEvent)
    -> Seq<PitchTrailPoint> {
    note_points(
        trail,
        t.start_beat_milli as int,
        t.start_beat_milli + t.duration_beats_milli,
    )
}

/// The points' pitch errors against a whole-number target, in milli-cents.
pub open spec fn cents_of(points: Seq<PitchTrailPoint>, midi: int) -> Seq<int> {
    Seq::new(points.len(), |i: int| (points[i].midi_milli - midi * 1000) * 100)
}

/// Sum of a sequence of integers.
pub open spec fn sum_ints(s: Seq<int>) -> int
    decreases s.len(),
{
    if s.len() == 0 {
        0
    } else {
        sum_ints(s.drop_last()) + s.last()
    }
}

/// A uniform bound on the entries bounds the sum.
pub proof fn lemma_sum_ints_bound(s: Seq<int>, bound: int)
    requires
        bound >= 0,
        forall|i: int| 0 <= i < s.len() ==> -bound <= #[trigger] s[i] <= bound,
    ensures
        -bound * s.len() <= sum_ints(s) <= bound * s.len(),
    decreases s.len(),
{
    if s.len() > 0 {
        assert(forall|i: int| 0 <= i < s.drop_last().len()
            ==> -bound <= #[trigger] s.drop_last()[i] <= bound);
        lemma_sum_ints_bound(s.drop_last(), bound);
        let n = s.len() as int;
        assert(bound * (n - 1) + bound == bound * n) by (nonlinear_arith);
        assert(-bound * (n - 1) - bound == -bound * n) by (nonlinear_arith);
    }
}

/// Sum of the squared deviations from `mean`.
pub open spec fn sum_sq_dev(s: Seq<int>, mean: int) -> int
    decreases s.len(),
{
    if s.len() == 0 {
        0
    } else {
        sum_sq_dev(s.drop_last(), mean) + (s.last() - mean) * (s.last() - mean)
    }
}

/// Squared deviations are nonnegative and bounded by the square of the
/// largest deviation.
pub proof fn lemma_sum_sq_dev_bound(s: Seq<int>, mean: int, bound: int)
    requires
        bound >= 0,
        forall|i: int| 0 <= i < s.len() ==> -bound <= #[trigger] s[i] - mean <= bound,
    ensures
        0 <= sum_sq_dev(s, mean) <= bound * bound * s.len(),
    decreases s.len(),
{
    if s.len() > 0 {
        assert(forall|i: int| 0 <= i < s.drop_last().len()
            ==> -bound <= #[trigger] s.drop_last()[i] - mean <= bound);
        lemma_sum_sq_dev_bound(s.drop_last(), mean, bound);
        let d = s.last() - mean;
        assert(0 <= d * d <= bound * bound) by (nonlinear_arith)
            requires
                -bound <= d <= bound,
        ;
        let n = s.len() as int;
        assert(bound * bound * (n - 1) + bound * bound == bound * bound * n)
            by (nonlinear_arith);
    }
}

/// Integer square root, defined by counting up.
pub open spec fn spec_isqrt(x: nat) -> nat
    decreases x,
{
    if x == 0 {
        0
    } else {
        let r = spec_isqrt((x - 1) as nat);
        if (r + 1) * (r + 1) <= x {
            r + 1
        } else {
            r
        }
    }
}

/// `spec_isqrt` is the greatest root whose square does not exceed `x`.
pub proof fn lemma_isqrt(x: nat)
    ensures
        spec_isqrt(x) * spec_isqrt(x) <= x,
        x < (spec_isqrt(x) + 1) * (spec_isqrt(x) + 1),
    decreases x,
{
    if x == 0 {
        let s = spec_isqrt(x);
        assert(s == 0);
        assert(s * s <= x && x < (s + 1) * (s + 1)) by (nonlinear_arith)
            requires
                x == 0nat,
                s == 0nat,
        ;
    } else {
        lemma_isqrt((x - 1) as nat);
        let r = spec_isqrt((x - 1) as nat);
        assert(r * r <= x - 1);
        assert(x - 1 < (r + 1) * (r + 1));
        if (r + 1) * (r + 1) <= x {
            assert(spec_isqrt(x) == r + 1);
            assert(x < (r + 2) * (r + 2)) by (nonlinear_arith)
                requires
                    x <= (r + 1) * (r + 1),
                    r >= 0,
            ;
            assert(x < (spec_isqrt(x) + 1) * (spec_isqrt(x) + 1));
        } else {
            assert(spec_isqrt(x) == r);
            assert(spec_isqrt(x) * spec_isqrt(x) <= x);
            assert(x < (spec_isqrt(x) + 1) * (spec_isqrt(x) + 1));
        }
    }
    assert(spec_isqrt(x) * spec_isqrt(x) <= x);
    assert(x < (spec_isqrt(x) + 1) * (spec_isqrt(x) + 1));
}

/// Any root with the bracketing property is the integer square root.
pub proof fn lemma_isqrt_unique(x: nat, r: nat)
    requires
        r * r <= x,
        x < (r + 1) * (r + 1),
    ensures
        r == spec_isqrt(x),
{
    lemma_isqrt(x);
    let s = spec_isqrt(x);
    if r < s {
        assert((r + 1) * (r + 1) <= s * s) by (nonlinear_arith)
            requires
                r + 1 <= s,
                r >= 0,
        ;
    } else if s < r {
        assert((s + 1) * (s + 1) <= r * r) by (nonlinear_arith)
            requires
                s + 1 <= r,
                s >= 0,
        ;
    }
}

/// Pitch stability of one note: the standard deviation, in milli-cents, of
/// the trail's pitch errors, with the truncating integer arithmetic the
/// analyzer uses throughout.
pub open spec fn note_stability(cents: Seq<int>) -> int
    recommends
        cents.len() > 0,
{
    let mean = div_trunc(sum_ints(cents), cents.len() as int);
    spec_isqrt((sum_sq_dev(cents, mean) / (cents.len() as int)) as nat) as int
}

/// How many leading points sit more than twenty cents off target before the
/// pitch first settles.
pub open spec fn attack_count(cents: Seq<int>) -> int
    decreases cents.len(),
{
    if cents.len() == 0 {
        0
    } else if abs_int(cents[0]) <= 20_000 {
        0
    } else {
        1 + attack_count(cents.drop_first())
    }
}

/// Attack ratio of one note, in milli units of the unit interval.
pub open spec fn note_attack_ratio(cents: Seq<int>) -> int
    recommends
        cents.len() > 0,
{
    attack_count(cents) * 1000 / (cents.len() as int)
}

/// Sum of the points' pitches, in milli-midi.
pub open spec fn sum_midi(points: Seq<PitchTrailPoint>) -> int
    decreases points.len(),
{
    if points.len() == 0 {
        0
    } else {
        sum_midi(points.drop_last()) + points.last().midi_milli
    }
}

/// Sustain drift of one note: how far, in milli-cents, the mean pitch of
/// the second half of its points sits from the first half's.
pub open spec fn note_drift(points: Seq<PitchTrailPoint>) -> int
    recommends
        points.len() >= 2,
{
    let mid = points.len() as int / 2;
    let first = div_trunc(sum_midi(points.take(mid)), mid);
    let second = div_trunc(sum_midi(points.skip(mid)), points.len() - mid);
    abs_int(second - first) * 100
}

/// Per-note stability values over the first `k` targets, skipping notes
/// with fewer than three trail points.
pub open spec fn stability_seq(targets: Seq<NoteEvent>, trail: Seq<PitchTrailPoint>, k: int)
    -> Seq<int>
    decreases k,
{
    if k <= 0 {
        Seq::empty()
    } else {
        let prev = stability_seq(targets, trail, k - 1);
        let pts = tech_points(trail, targets[k - 1]);
        if pts.len() >= 3 {
            prev.push(note_stability(cents_of(pts, targets[k - 1].midi as int)))
        } else {
            prev
        }
    }
}

/// Per-note attack ratios over the first `k` targets.
pub open spec fn attack_seq(targets: Seq<NoteEvent>, trail: Seq<PitchTrailPoint>, k: int)
    -> Seq<int>
    decreases k,
{
    if k <= 0 {
        Seq::empty()
    } else {
        let prev = attack_seq(targets, trail, k - 1);
        let pts = tech_points(trail, targets[k - 1]);
        if pts.len() >= 3 {
            prev.push(note_attack_ratio(cents_of(pts, targets[k - 1].midi as int)))
        } else {
            prev
        }
    }
}

/// Per-note sustain drifts over the first `k` targets: only notes of at
/// least two beats with enough trail points.
pub open spec fn drift_seq(targets: Seq<NoteEvent>, trail: Seq<PitchTrailPoint>, k: int)
    -> Seq<int>
    decreases k,
{
    if k <= 0 {
        Seq::empty()
    } else {
        let prev = drift_seq(targets, trail, k - 1);
        let pts = tech_points(trail, targets[k - 1]);
        if pts.len() >= 3 && targets[k - 1].duration_beats_milli >= 2000
            && pts.len() as int / 2 > 0 {
            prev.push(note_drift(pts))
        } else {
            prev
        }
    }
}

/// Correct results among indices `[lo, hi)`.
pub open spec fn count_correct_range(rs: Seq<NoteResult>, lo: int, hi: int) -> int
    decreases hi - lo,
{
    if lo >= hi {
        0
    } else {
        (if rs[lo].status is Correct {
            1int
        } else {
            0int
        }) + count_correct_range(rs, lo + 1, hi)
    }
}

/// The count over a range never exceeds the range's width.
pub proof fn lemma_count_correct_range_bound(rs: Seq<NoteResult>, lo: int, hi: int)
    ensures
        0 <= count_correct_range(rs, lo, hi),
        count_correct_range(rs, lo, hi) <= (if hi >= lo {
            hi - lo
        } else {
            0int
        }),
    decreases hi - lo,
{
    if lo < hi {
        lemma_count_correct_range_bound(rs, lo + 1, hi);
    }
}

/// Whether the technique pass runs at all: it needs a trail and targets.
pub open spec fn tech_active(targets: Seq<NoteEvent>, trail: Seq<PitchTrailPoint>) -> bool {
    trail.len() > 0 && targets.len() > 0
}

/// Mean in-note pitch deviation in milli-cents, over the notes that had
/// enough trail points.
pub open spec fn spec_stability(targets: Seq<NoteEvent>, trail: Seq<PitchTrailPoint>)
    -> Option<int> {
    if !tech_active(targets, trail) {
        None
    } else {
        let sv = stability_seq(targets, trail, targets.len() as int);
        if sv.len() > 0 {
            Some(sum_ints(sv) / (sv.len() as int))
        } else {
            None
        }
    }
}

/// Attack quality in milli units: one minus the mean attack ratio.
pub open spec fn spec_attack(targets: Seq<NoteEvent>, trail: Seq<PitchTrailPoint>)
    -> Option<int> {
    if !tech_active(targets, trail) {
        None
    } else {
        let av = attack_seq(targets, trail, targets.len() as int);
        if av.len() > 0 {
            Some(1000 - sum_ints(av) / (av.len() as int))
        } else {
            None
        }
    }
}

/// Breath support in milli units: mean sustain drift mapped through
/// `1 - drift_cents / 50`, clamped to the unit interval.
pub open spec fn spec_breath(targets: Seq<NoteEvent>, trail: Seq<PitchTrailPoint>)
    -> Option<int> {
    if !tech_active(targets, trail) {
        None
    } else {
        let dv = drift_seq(targets, trail, targets.len() as int);
        if dv.len() > 0 {
            let q = (sum_ints(dv) / (dv.len() as int)) / 50;
            Some(
                if q >= 1000 {
                    0int
                } else {
                    1000 - q
                },
            )
        } else {
            None
        }
    }
}

/// Endurance delta in milli percentage points: first-half correct fraction
/// minus second-half correct fraction, times one hundred; needs at least
/// four results.
pub open spec fn spec_endurance(
    targets: Seq<NoteEvent>,
    trail: Seq<PitchTrailPoint>,
    rs: Seq<NoteResult>,
) -> Option<int> {
    if !tech_active(targets, trail) {
        None
    } else if rs.len() >= 4 {
        let mid = rs.len() as int / 2;
        let first = count_correct_range(rs, 0, mid) * 100_000 / mid;
        let second = count_correct_range(rs, mid, rs.len() as int) * 100_000
            / (rs.len() - mid);
        Some(first - second)
    } else {
        None
    }
}

/// The technique sentences, in their fixed rule order.
pub open spec fn spec_technique_feedback(
    targets: Seq<NoteEvent>,
    trail: Seq<PitchTrailPoint>,
    rs: Seq<NoteResult>,
) -> Seq<TechniqueFeedback> {
    let s0 = Seq::<TechniqueFeedback>::empty();
    let s1 = match spec_stability(targets, trail) {
        Some(v) => if v > 15_000 {
            s0.push(TechniqueFeedback::UnsteadyPitch)
        } else {
            s0
        },
        None => s0,
    };
    let s2 = match spec_attack(targets, trail) {
        Some(v) => if v < 700 {
            s1.push(TechniqueFeedback::SlowAttacks)
        } else {
            s1
        },
        None => s1,
    };
    let s3 = match spec_breath(targets, trail) {
        Some(v) => if v < 700 {
            s2.push(TechniqueFeedback::FadingSupport)
        } else {
            s2
        },
        None => s2,
    };
    match spec_endurance(targets, trail, rs) {
        Some(v) => if v > 15_000 {
            s3.push(TechniqueFeedback::EnduranceDrop)
        } else {
            s3
        },
        None => s3,
    }
}

/// The view of a vector of unsigned values as spec integers.
pub open spec fn int_view_u64(v: Seq<u64>) -> Seq<int> {
    Seq::new(v.len(), |i: int| v[i] as int)
}

/// The trail points of one note, as a vector.
fn collect_note_points(trail: &[PitchTrailPoint], start: i64, end_: i64)
    -> (pts: Vec<PitchTrailPoint>)
    ensures
        pts@ == note_points(trail@, start as int, end_ as int),
        forall|i: int| 0 <= i < pts@.len() ==> trail@.contains(#[trigger] pts@[i]),
    decreases trail@.len(),
{
    let mut pts: Vec<PitchTrailPoint> = Vec::new();
    let mut i: usize = 0;
    while i < trail.len()
        invariant
            i <= trail@.len(),
            pts@ == note_points(trail@.take(i as int), start as int, end_ as int),
            forall|q: int| 0 <= q < pts@.len() ==> trail@.contains(#[trigger] pts@[q]),
        decreases trail@.len() - i,
    {
        proof {
            assert(trail@.take(i + 1).drop_last() =~= trail@.take(i as int));
            assert(trail@.take(i + 1).last() == trail@[i as int]);
        }
        let p = trail[i];
        if start <= p.beat_milli && p.beat_milli < end_ {
            pts.push(p);
        }
        i = i + 1;
    }
    proof {
        assert(trail@.take(trail@.len() as int) =~= trail@);
    }
    pts
}

/// The per-point pitch errors of a note, in milli-cents.
fn note_cents(pts: &Vec<PitchTrailPoint>, midi: i32) -> (cents: Vec<i64>)
    requires
        -MIDI_LIMIT <= midi <= MIDI_LIMIT,
        forall|i: int| 0 <= i < pts@.len() ==> (#[trigger] pts@[i]).bounded(),
    ensures
        cents@.len() == pts@.len(),
        forall|i: int| 0 <= i < cents@.len()
            ==> #[trigger] cents@[i] == cents_of(pts@, midi as int)[i],
        forall|i: int| 0 <= i < cents@.len()
            ==> -200_000_000 <= #[trigger] cents@[i] <= 200_000_000,
{
    let mut cents: Vec<i64> = Vec::new();
    let mut i: usize = 0;
    while i < pts.len()
        invariant
            i <= pts@.len(),
            -MIDI_LIMIT <= midi <= MIDI_LIMIT,
            forall|q: int| 0 <= q < pts@.len() ==> (#[trigger] pts@[q]).bounded(),
            cents@.len() == i,
            forall|q: int| 0 <= q < i
                ==> #[trigger] cents@[q] == cents_of(pts@, midi as int)[q],
            forall|q: int| 0 <= q < i
                ==> -200_000_000 <= #[trigger] cents@[q] <= 200_000_000,
        decreases pts@.len() - i,
    {
        let c = cents_between(pts[i].midi_milli, midi);
        cents.push(c);
        i = i + 1;
    }
    cents
}

/// Standard deviation, in milli-cents, of a note's pitch errors.
fn stability_of(cents: &Vec<i64>) -> (std: u64)
    requires
        0 < cents@.len() <= LIST_LIMIT,
        forall|i: int| 0 <= i < cents@.len()
            ==> -200_000_000 <= #[trigger] cents@[i] <= 200_000_000,
    ensures
        std == note_stability(Seq::new(cents@.len(), |i: int| cents@[i] as int)),
        std <= 500_000_000,
{
    let ghost cs: Seq<int> = Seq::new(cents@.len(), |i: int| cents@[i] as int);
    let n: usize = cents.len();
    let mut sum: i64 = 0;
    let mut i: usize = 0;
    proof {
        assert(forall|q: int| 0 <= q < cs.len()
            ==> -200_000_000 <= #[trigger] cs[q] <= 200_000_000);
    }
    while i < n
        invariant
            i <= n,
            n == cents@.len(),
            n <= LIST_LIMIT,
            cs == Seq::new(cents@.len(), |q: int| cents@[q] as int),
            forall|q: int| 0 <= q < cents@.len()
                ==> -200_000_000 <= #[trigger] cents@[q] <= 200_000_000,
            sum == sum_ints(cs.take(i as int)),
            -200_000_000 * (i as int) <= sum <= 200_000_000 * (i as int),
        decreases n - i,
    {
        proof {
            assert(cs.take(i + 1).drop_last() =~= cs.take(i as int));
            assert(cs.take(i + 1).last() == cs[i as int]);
        }
        sum = sum + cents[i];
        i = i + 1;
    }
    proof {
        assert(cs.take(cs.len() as int) =~= cs);
    }
    let mean: i64 = div_trunc_i64(sum, n as u64);
    proof {
        crate::num::lemma_div_trunc_bound(sum as int, n as int, 200_000_000);
        assert(-200_000_000 <= mean <= 200_000_000);
    }
    let mut ss: u128 = 0;
    let mut j: usize = 0;
    while j < n
        invariant
            j <= n,
            n == cents@.len(),
            n <= LIST_LIMIT,
            cs == Seq::new(cents@.len(), |q: int| cents@[q] as int),
            forall|q: int| 0 <= q < cents@.len()
                ==> -200_000_000 <= #[trigger] cents@[q] <= 200_000_000,
            -200_000_000 <= mean <= 200_000_000,
            ss == sum_sq_dev(cs.take(j as int), mean as int),
            ss <= 160_000_000_000_000_000 * (j as int),
        decreases n - j,
    {
        proof {
            assert(cs.take(j + 1).drop_last() =~= cs.take(j as int));
            assert(cs.take(j + 1).last() == cs[j as int]);
        }
        let dev: i64 = cents[j] - mean;
        proof {
            assert(0 <= (dev as int) * (dev as int) <= 160_000_000_000_000_000)
                by (nonlinear_arith)
                requires
                    -400_000_000 <= dev <= 400_000_000,
            ;
        }
        let sq: i64 = dev * dev;
        ss = ss + (sq as u128);
        j = j + 1;
    }
    proof {
        assert(cs.take(cs.len() as int) =~= cs);
    }
    let variance: u128 = ss / (n as u128);
    proof {
        assert(variance <= 160_000_000_000_000_000) by {
            assert(ss <= 160_000_000_000_000_000 * (n as int));
            assert(ss / (n as u128) <= 160_000_000_000_000_000) by (nonlinear_arith)
                requires
                    n >= 1,
                    ss <= 160_000_000_000_000_000 * (n as int),
            ;
        }
    }
    let std: u64 = isqrt_u128(variance);
    proof {
        lemma_isqrt_unique(variance as nat, std as nat);
        assert(std <= 500_000_000) by {
            lemma_isqrt(variance as nat);
            assert(500_000_001 * 500_000_001 > 160_000_000_000_000_000);
            if std > 500_000_000 {
                assert((std as nat) * (std as nat) >= 500_000_001 * 500_000_001)
                    by (nonlinear_arith)
                    requires
                        std as nat >= 500_000_001,
                ;
            }
        }
    }
    std
}

/// Attack ratio, in milli units, of a note's pitch errors.
fn attack_ratio_of(cents: &Vec<i64>) -> (ratio: u64)
    requires
        0 < cents@.len() <= LIST_LIMIT,
    ensures
        ratio == note_attack_ratio(Seq::new(cents@.len(), |i: int| cents@[i] as int)),
        ratio <= 1000,
{
    let ghost cs: Seq<int> = Seq::new(cents@.len(), |i: int| cents@[i] as int);
    let n: usize = cents.len();
    let mut count: u64 = 0;
    let mut settled: bool = false;
    let mut i: usize = 0;
    proof {
        assert(cs.skip(0) =~= cs);
    }
    while i < n
        invariant
            i <= n,
            n == cents@.len(),
            cs == Seq::new(cents@.len(), |q: int| cents@[q] as int),
            settled ==> count == attack_count(cs),
            !settled ==> count == i && attack_count(cs)
                == i + attack_count(cs.skip(i as int)),
        decreases n - i,
    {
        if !settled {
            proof {
                assert(cs.skip(i as int)[0] == cs[i as int]);
                assert(cs.skip(i as int).drop_first() =~= cs.skip(i as int + 1));
            }
            let c = cents[i];
            let within: bool = -20_000 <= c && c <= 20_000;
            if within {
                settled = true;
            } else {
                count = count + 1;
            }
        }
        i = i + 1;
    }
    proof {
        if !settled {
            assert(cs.skip(n as int) =~= Seq::<int>::empty());
        }
        assert(count == attack_count(cs));
        assert(0 <= attack_count(cs) <= cs.len()) by {
            lemma_attack_count_bound(cs);
        }
    }
    let ratio: u64 = count * 1000 / (n as u64);
    proof {
        assert((count as int) * 1000 / (n as int) <= 1000) by (nonlinear_arith)
            requires
                n >= 1,
                0 <= count <= n,
        ;
    }
    ratio
}

/// The leading out-of-tune run is never longer than the note.
pub proof fn lemma_attack_count_bound(cents: Seq<int>)
    ensures
        0 <= attack_count(cents) <= cents.len(),
    decreases cents.len(),
{
    if cents.len() > 0 && !(abs_int(cents[0]) <= 20_000) {
        lemma_attack_count_bound(cents.drop_first());
    }
}

/// Sustain drift, in milli-cents, of one note's trail points.
fn drift_of(pts: &Vec<PitchTrailPoint>) -> (drift: u64)
    requires
        2 <= pts@.len() <= LIST_LIMIT,
        forall|i: int| 0 <= i < pts@.len() ==> (#[trigger] pts@[i]).bounded(),
    ensures
        drift == note_drift(pts@),
        drift <= 400_000_000,
{
    let n: usize = pts.len();
    let mid: usize = n / 2;
    let mut first_sum: i64 = 0;
    let mut i: usize = 0;
    while i < mid
        invariant
            i <= mid,
            mid == pts@.len() as int / 2,
            mid < n,
            n == pts@.len(),
            n <= LIST_LIMIT,
            forall|q: int| 0 <= q < pts@.len() ==> (#[trigger] pts@[q]).bounded(),
            first_sum == sum_midi(pts@.take(mid as int).take(i as int)),
            -1_000_000 * (i as int) <= first_sum <= 1_000_000 * (i as int),
        decreases mid - i,
    {
        proof {
            let half = pts@.take(mid as int);
            assert(half.take(i + 1).drop_last() =~= half.take(i as int));
            assert(half.take(i + 1).last() == pts@[i as int]);
        }
        first_sum = first_sum + pts[i].midi_milli;
        i = i + 1;
    }
    let mut second_sum: i64 = 0;
    let mut j: usize = mid;
    while j < n
        invariant
            mid <= j <= n,
            mid == pts@.len() as int / 2,
            n == pts@.len(),
            n <= LIST_LIMIT,
            forall|q: int| 0 <= q < pts@.len() ==> (#[trigger] pts@[q]).bounded(),
            second_sum == sum_midi(pts@.skip(mid as int).take(j - mid)),
            -1_000_000 * (j - mid) <= second_sum <= 1_000_000 * (j - mid),
        decreases n - j,
    {
        proof {
            let half = pts@.skip(mid as int);
            assert(half.take(j - mid + 1).drop_last() =~= half.take(j - mid));
            assert(half.take(j - mid + 1).last() == pts@[j as int]);
        }
        second_sum = second_sum + pts[j].midi_milli;
        j = j + 1;
    }
    proof {
        let half1 = pts@.take(mid as int);
        assert(half1.take(half1.len() as int) =~= half1);
        let half2 = pts@.skip(mid as int);
        assert(half2.take(half2.len() as int) =~= half2);
    }
    let first: i64 = div_trunc_i64(first_sum, mid as u64);
    let second: i64 = div_trunc_i64(second_sum, (n - mid) as u64);
    proof {
        crate::num::lemma_div_trunc_bound(first_sum as int, mid as int, 1_000_000);
        crate::num::lemma_div_trunc_bound(second_sum as int, (n - mid) as int, 1_000_000);
        assert(-1_000_000 <= first <= 1_000_000);
        assert(-1_000_000 <= second <= 1_000_000);
    }
    let diff: i64 = second - first;
    let mag: u64 = if diff >= 0 {
        diff as u64
    } else {
        (-(diff as i128)) as u64
    };
    mag * 100
}

/// Technique analysis over the target notes, the per-note results and the
/// pitch trail: in-note stability, attack quality, breath support, the
/// endurance delta, and the technique sentences. Every metric is `None`
/// when the trail or target list is empty, or when its own precondition
/// (enough points, long enough notes, at least four results) never held.
pub fn analyze_technique(
    targets: &Vec<NoteEvent>,
    note_results: &Vec<NoteResult>,
    pitch_trail: &[PitchTrailPoint],
) -> (r: (Option<u64>, Option<u32>, Option<u32>, Option<i64>, Vec<TechniqueFeedback>))
    requires
        targets@.len() <= LIST_LIMIT,
        note_results@.len() <= LIST_LIMIT,
        pitch_trail@.len() <= LIST_LIMIT,
        forall|i: int| 0 <= i < targets@.len() ==> (#[trigger] targets@[i]).bounded(),
        forall|i: int| 0 <= i < pitch_trail@.len()
            ==> (#[trigger] pitch_trail@[i]).bounded(),
    ensures
        ({
            let stab = spec_stability(targets@, pitch_trail@);
            let att = spec_attack(targets@, pitch_trail@);
            let brth = spec_breath(targets@, pitch_trail@);
            let endu = spec_endurance(targets@, pitch_trail@, note_results@);
            &&& (r.0 is Some <==> stab is Some)
            &&& (r.0 matches Some(v) ==> stab == Some(v as int))
            &&& (r.1 is Some <==> att is Some)
            &&& (r.1 matches Some(v) ==> att == Some(v as int))
            &&& (r.2 is Some <==> brth is Some)
            &&& (r.2 matches Some(v) ==> brth == Some(v as int))
            &&& (r.3 is Some <==> endu is Some)
            &&& (r.3 matches Some(v) ==> endu == Some(v as int))
            &&& r.4@ == spec_technique_feedback(targets@, pitch_trail@, note_results@)
        }),
{
    if pitch_trail.len() == 0 || targets.len() == 0 {
        return (None, None, None, None, Vec::new());
    }
    let ghost tg = targets@;
    let ghost tr = pitch_trail@;

    let mut stab_vals: Vec<u64> = Vec::new();
    let mut attack_vals: Vec<u64> = Vec::new();
    let mut drift_vals: Vec<u64> = Vec::new();
    let mut k: usize = 0;
    while k < targets.len()
        invariant
            k <= tg.len(),
            tg == targets@,
            tr == pitch_trail@,
            tg.len() <= LIST_LIMIT,
            tr.len() <= LIST_LIMIT,
            forall|q: int| 0 <= q < tg.len() ==> (#[trigger] tg[q]).bounded(),
            forall|q: int| 0 <= q < tr.len() ==> (#[trigger] tr[q]).bounded(),
            int_view_u64(stab_vals@) == stability_seq(tg, tr, k as int),
            int_view_u64(attack_vals@) == attack_seq(tg, tr, k as int),
            int_view_u64(drift_vals@) == drift_seq(tg, tr, k as int),
            forall|q: int| 0 <= q < stab_vals@.len()
                ==> #[trigger] stab_vals@[q] <= 500_000_000,
            forall|q: int| 0 <= q < attack_vals@.len()
                ==> #[trigger] attack_vals@[q] <= 1000,
            forall|q: int| 0 <= q < drift_vals@.len()
                ==> #[trigger] drift_vals@[q] <= 400_000_000,
            stab_vals@.len() <= k,
            attack_vals@.len() <= k,
            drift_vals@.len() <= k,
        decreases tg.len() - k,
    {
        let t = &targets[k];
        let end_: i64 = t.start_beat_milli + t.duration_beats_milli;
        let pts = collect_note_points(pitch_trail, t.start_beat_milli, end_);
        proof {
            assert(pts@ == tech_points(tr, tg[k as int]));
            assert(forall|q: int| 0 <= q < pts@.len()
                ==> (#[trigger] pts@[q]).bounded());
            assert(pts@.len() <= tr.len()) by {
                lemma_note_points_len(tr, t.start_beat_milli as int, end_ as int);
            }
        }
        if pts.len() >= 3 {
            let cents = note_cents(&pts, t.midi);
            proof {
                assert(Seq::new(cents@.len(), |i: int| cents@[i] as int)
                    =~= cents_of(pts@, tg[k as int].midi as int));
            }
            let std = stability_of(&cents);
            stab_vals.push(std);
            let ratio = attack_ratio_of(&cents);
            attack_vals.push(ratio);
            proof {
                assert(int_view_u64(stab_vals@) =~= stability_seq(tg, tr, k as int + 1));
                assert(int_view_u64(attack_vals@) =~= attack_seq(tg, tr, k as int + 1));
            }
            if t.duration_beats_milli >= 2000 && pts.len() / 2 > 0 {
                let d = drift_of(&pts);
                drift_vals.push(d);
            }
            proof {
                assert(int_view_u64(drift_vals@) =~= drift_seq(tg, tr, k as int + 1));
            }
        } else {
            proof {
                assert(int_view_u64(stab_vals@) =~= stability_seq(tg, tr, k as int + 1));
                assert(int_view_u64(attack_vals@) =~= attack_seq(tg, tr, k as int + 1));
                assert(int_view_u64(drift_vals@) =~= drift_seq(tg, tr, k as int + 1));
            }
        }
        k = k + 1;
    }

    let stability: Option<u64> = match mean_u64(&stab_vals, 500_000_000) {
        Option::Some(v) => Some(v),
        Option::None => None,
    };
    let attack: Option<u32> = match mean_u64(&attack_vals, 1000) {
        Option::Some(v) => Some((1000 - v) as u32),
        Option::None => None,
    };
    let breath: Option<u32> = match mean_u64(&drift_vals, 400_000_000) {
        Option::Some(v) => {
            let q: u64 = v / 50;
            Some(
                if q >= 1000 {
                    0
                } else {
                    (1000 - q) as u32
                },
            )
        }
        Option::None => None,
    };

    let endurance: Option<i64> = if note_results.len() >= 4 {
        let n: usize = note_results.len();
        let mid: usize = n / 2;
        let cf: u64 = count_correct_between(note_results, 0, mid);
        let cs: u64 = count_correct_between(note_results, mid, n);
        proof {
            lemma_count_correct_range_bound(note_results@, 0, mid as int);
            lemma_count_correct_range_bound(note_results@, mid as int, n as int);
        }
        let first: u64 = cf * 100_000 / (mid as u64);
        let second: u64 = cs * 100_000 / ((n - mid) as u64);
        proof {
            assert(first <= 100_000) by (nonlinear_arith)
                requires
                    mid >= 1,
                    first as int == (cf as int) * 100_000 / (mid as int),
                    cf <= mid,
            ;
            assert(second <= 100_000) by (nonlinear_arith)
                requires
                    n - mid >= 1,
                    second as int == (cs as int) * 100_000 / ((n - mid) as int),
                    cs <= n - mid,
            ;
        }
        Some((first as i64) - (second as i64))
    } else {
        None
    };

    let mut fb: Vec<TechniqueFeedback> = Vec::new();
    match stability {
        Option::Some(v) => {
            if v > 15_000 {
                fb.push(TechniqueFeedback::UnsteadyPitch);
            }
        }
        Option::None => {}
    }
    match attack {
        Option::Some(v) => {
            if v < 700 {
                fb.push(TechniqueFeedback::SlowAttacks);
            }
        }
        Option::None => {}
    }
    match breath {
        Option::Some(v) => {
            if v < 700 {
                fb.push(TechniqueFeedback::FadingSupport);
            }
        }
        Option::None => {}
    }
    match endurance {
        Option::Some(v) => {
            if v > 15_000 {
                fb.push(TechniqueFeedback::EnduranceDrop);
            }
        }
        Option::None => {}
    }
    proof {
        assert(fb@ =~= spec_technique_feedback(tg, tr, note_results@));
    }
    (stability, attack, breath, endurance, fb)
}

/// A note never gathers more trail points than the trail holds.
pub proof fn lemma_note_points_len(trail: Seq<PitchTrailPoint>, start: int, end_: int)
    ensures
        note_points(trail, start, end_).len() <= trail.len(),
    decreases trail.len(),
{
    if trail.len() > 0 {
        lemma_note_points_len(trail.drop_last(), start, end_);
    }
}

/// Truncating mean of a vector of bounded unsigned values; `None` when
/// empty.
fn mean_u64(vals: &Vec<u64>, bound: u64) -> (m: Option<u64>)
    requires
        vals@.len() <= LIST_LIMIT,
        bound <= 1_000_000_000,
        forall|i: int| 0 <= i < vals@.len() ==> #[trigger] vals@[i] <= bound,
    ensures
        (m is Some <==> vals@.len() > 0),
        m matches Some(v) ==> v as int == sum_ints(int_view_u64(vals@))
            / (vals@.len() as int) && v <= bound,
{
    if vals.len() == 0 {
        return None;
    }
    let ghost vs = int_view_u64(vals@);
    let n: usize = vals.len();
    let mut sum: u64 = 0;
    let mut i: usize = 0;
    while i < n
        invariant
            i <= n,
            n == vals@.len(),
            n <= LIST_LIMIT,
            bound <= 1_000_000_000,
            vs == int_view_u64(vals@),
            forall|q: int| 0 <= q < vals@.len() ==> #[trigger] vals@[q] <= bound,
            sum == sum_ints(vs.take(i as int)),
            sum <= 1_000_000_000 * (i as int),
        decreases n - i,
    {
        proof {
            assert(vs.take(i + 1).drop_last() =~= vs.take(i as int));
            assert(vs.take(i + 1).last() == vs[i as int]);
        }
        sum = sum + vals[i];
        i = i + 1;
    }
    proof {
        assert(vs.take(vs.len() as int) =~= vs);
    }
    let m: u64 = sum / (n as u64);
    proof {
        lemma_sum_ints_bound(vs, bound as int);
        assert(m <= bound) by (nonlinear_arith)
            requires
                n >= 1,
                m == sum / (n as u64),
                sum <= bound * (n as int),
                bound >= 0,
        ;
    }
    Some(m)
}

/// Correct results among indices `[lo, hi)` of the result list.
fn count_correct_between(results: &Vec<NoteResult>, lo: usize, hi: usize) -> (c: u64)
    requires
        lo <= hi <= results@.len(),
    ensures
        c == count_correct_range(results@, lo as int, hi as int),
        c <= hi - lo,
{
    let ghost rs = results@;
    let mut c: u64 = 0;
    let mut i: usize = lo;
    while i < hi
        invariant
            lo <= i <= hi <= rs.len(),
            rs == results@,
            c <= i - lo,
            count_correct_range(rs, lo as int, hi as int)
                == c + count_correct_range(rs, i as int, hi as int),
        decreases hi - i,
    {
        match results[i].status {
            crate::types::NoteStatus::Correct => {
                c = c + 1;
            }
            _ => {}
        }
        i = i + 1;
    }
    c
}

} // verus!
