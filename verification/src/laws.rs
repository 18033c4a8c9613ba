//! The analyzer's global guarantees, each proved once and for all over the
//! same spec model the public contracts use.

use vstd::prelude::*;
use crate::matching::{
    count_true, fresh_mask, lemma_count_true_bounds, lemma_match_properties, matched_result,
    spec_best_in_prefix, spec_best_match, spec_match, spec_targets, spec_cent_error,
};
use crate::stats::{
    count_matched, count_status, spec_mean, spec_overall, spec_pitch_tendency,
    spec_timing_tendency, sum_abs_pitch_error, sum_abs_timing_error, sum_pitch_error,
    sum_timing_error,
};
use crate::analyzer::spec_feedback;
use crate::technique::{count_correct_range, spec_endurance, tech_active};
use crate::num::abs_int;
use crate::types::{
    Feedback, NoteEvent, NoteResult, NoteStatus, PitchTendency, PitchTrailPoint, PlayedNote,
    TimingTendency,
};

verus! {

/// Every result carries exactly one status, and the matched ones are those
/// not missed.
pub proof fn lemma_status_partition(rs: Seq<NoteResult>)
    ensures
        count_status(rs, NoteStatus::Correct) + count_status(rs, NoteStatus::WrongPitch)
            + count_status(rs, NoteStatus::Missed) == rs.len(),
        count_matched(rs) == count_status(rs, NoteStatus::Correct)
            + count_status(rs, NoteStatus::WrongPitch),
    decreases rs.len(),
{
    if rs.len() > 0 {
        lemma_status_partition(rs.drop_first());
    }
}

/// A score with no playable notes always reports zero totals and a single
/// explanatory feedback message: the feedback list is never empty.
pub proof fn lemma_empty_score_report(
    notes: Seq<NoteEvent>,
    played: Seq<PlayedNote>,
    tol_cents: int,
    tol_timing: int,
)
    requires
        spec_targets(notes).len() == 0,
    ensures
        ({
            let rs = spec_match(
                spec_targets(notes), played, fresh_mask(played.len()), tol_cents, tol_timing,
            ).0;
            &&& rs.len() == 0
            &&& spec_feedback(
                0,
                count_status(rs, NoteStatus::Correct),
                count_status(rs, NoteStatus::Missed),
                count_matched(rs),
                0,
                0,
                0,
                0,
                crate::intervals::spec_problems(rs, tol_cents),
            ) == seq![Feedback::NoNotes]
            &&& spec_feedback(
                0,
                count_status(rs, NoteStatus::Correct),
                count_status(rs, NoteStatus::Missed),
                count_matched(rs),
                0,
                0,
                0,
                0,
                crate::intervals::spec_problems(rs, tol_cents),
            ).len() > 0
        }),
{
}

/// A played list aligned note-for-note with the targets: same onsets, the
/// exact target pitches.
pub open spec fn aligned(targets: Seq<NoteEvent>, played: Seq<PlayedNote>) -> bool {
    &&& targets.len() == played.len()
    &&& forall|i: int| 0 <= i < targets.len() ==> {
        &&& (#[trigger] played[i]).onset_beat_milli == targets[i].start_beat_milli
        &&& played[i].midi_milli == targets[i].midi * 1000
    }
}

/// Under an aligned performance with `k` earlier notes already claimed,
/// target `k`'s search settles on played note `k` itself: every earlier
/// note is used, note `k` sits at distance zero, and no later note can
/// strictly beat it.
proof fn lemma_aligned_best(
    played: Seq<PlayedNote>,
    used: Seq<bool>,
    k: int,
    t: int,
    tol: int,
    m: nat,
)
    requires
        used.len() == played.len(),
        0 <= k < played.len(),
        forall|i: int| 0 <= i < used.len() ==> ((#[trigger] used[i]) <==> i < k),
        played[k].onset_beat_milli == t,
        tol >= 0,
        m <= played.len(),
    ensures
        spec_best_in_prefix(played, used, t, tol, m) == if m <= k {
            Option::<int>::None
        } else {
            Option::<int>::Some(k)
        },
    decreases m,
{
    if m > 0 {
        lemma_aligned_best(played, used, k, t, tol, (m - 1) as nat);
    }
}

/// A performance that matches every target exactly, in pitch and onset, is
/// scored perfectly: every result is correct with zero pitch and timing
/// error.
pub proof fn lemma_aligned_suffix(
    targets: Seq<NoteEvent>,
    played: Seq<PlayedNote>,
    used: Seq<bool>,
    k: int,
    tol_cents: int,
    tol_timing: int,
)
    requires
        aligned(targets, played),
        0 <= k <= targets.len(),
        used.len() == played.len(),
        forall|i: int| 0 <= i < used.len() ==> ((#[trigger] used[i]) <==> i < k),
        tol_cents >= 0,
        tol_timing >= 0,
    ensures
        ({
            let rs = spec_match(targets.skip(k), played, used, tol_cents, tol_timing).0;
            &&& rs.len() == targets.len() - k
            &&& forall|i: int| 0 <= i < rs.len() ==> {
                &&& (#[trigger] rs[i]).status is Correct
                &&& rs[i].pitch_error_millicents == Some(0i64)
                &&& rs[i].timing_error_milli == Some(0i64)
            }
        }),
    decreases targets.len() - k,
{
    let suffix = targets.skip(k);
    if suffix.len() > 0 {
        let t = suffix[0];
        assert(t == targets[k]);
        lemma_aligned_best(
            played, used, k, t.start_beat_milli as int, tol_timing, played.len());
        assert(spec_best_match(played, used, t.start_beat_milli as int, tol_timing)
            == Some(k));
        let u1 = used.update(k, true);
        assert(forall|i: int| 0 <= i < u1.len() ==> ((#[trigger] u1[i]) <==> i < k + 1));
        lemma_aligned_suffix(targets, played, u1, k + 1, tol_cents, tol_timing);
        assert(targets.skip(k).drop_first() =~= targets.skip(k + 1));
        let r0 = matched_result(t, played[k], tol_cents);
        assert(spec_cent_error(played[k].midi_milli as int, t.midi as int) == 0);
        assert(r0.status is Correct);
        let rs = spec_match(suffix, played, used, tol_cents, tol_timing).0;
        let rest = spec_match(targets.skip(k + 1), played, u1, tol_cents, tol_timing).0;
        assert(rs =~= seq![r0] + rest);
        assert(forall|i: int| 1 <= i < rs.len() ==> rs[i] == #[trigger] rest[i - 1]);
    }
}

/// All-correct result lists: the counts and error sums a perfect
/// performance yields.
pub proof fn lemma_all_correct_stats(rs: Seq<NoteResult>)
    requires
        forall|i: int| 0 <= i < rs.len() ==> {
            &&& (#[trigger] rs[i]).status is Correct
            &&& rs[i].pitch_error_millicents == Some(0i64)
            &&& rs[i].timing_error_milli == Some(0i64)
        },
    ensures
        count_status(rs, NoteStatus::Correct) == rs.len(),
        count_status(rs, NoteStatus::Missed) == 0,
        count_status(rs, NoteStatus::WrongPitch) == 0,
        count_matched(rs) == rs.len(),
        sum_pitch_error(rs) == 0,
        sum_abs_pitch_error(rs) == 0,
        sum_timing_error(rs) == 0,
        sum_abs_timing_error(rs) == 0,
    decreases rs.len(),
{
    if rs.len() > 0 {
        assert(forall|i: int| 0 <= i < rs.drop_first().len() ==> {
            &&& (#[trigger] rs.drop_first()[i]).status is Correct
            &&& rs.drop_first()[i].pitch_error_millicents == Some(0i64)
            &&& rs.drop_first()[i].timing_error_milli == Some(0i64)
        });
        lemma_all_correct_stats(rs.drop_first());
    }
}

/// A performance whose played notes sit exactly on the targets, pitch and
/// onset alike, is matched note for note: every target correct, none
/// missed, and the overall score is the full one hundred.
pub proof fn lemma_perfect_performance(
    targets: Seq<NoteEvent>,
    played: Seq<PlayedNote>,
    tol_cents: int,
    tol_timing: int,
)
    requires
        aligned(targets, played),
        targets.len() > 0,
        tol_cents >= 0,
        tol_timing >= 0,
    ensures
        perfect_report(
            spec_match(targets, played, fresh_mask(played.len()), tol_cents, tol_timing).0,
            targets.len() as int,
        ),
{
    let mask = fresh_mask(played.len());
    assert(forall|i: int| 0 <= i < mask.len() ==> ((#[trigger] mask[i]) <==> i < 0));
    lemma_aligned_suffix(targets, played, mask, 0, tol_cents, tol_timing);
    assert(targets.skip(0) =~= targets);
    let rs = spec_match(targets, played, mask, tol_cents, tol_timing).0;
    lemma_perfect_report(rs, targets.len() as int);
}

/// The report a flawless performance of `n` targets earns: every note
/// correct, zero mean errors, neutral tendencies, the full score.
pub open spec fn perfect_report(rs: Seq<NoteResult>, n: int) -> bool {
    &&& count_status(rs, NoteStatus::Correct) == n
    &&& count_status(rs, NoteStatus::WrongPitch) == 0
    &&& count_status(rs, NoteStatus::Missed) == 0
    &&& spec_mean(sum_pitch_error(rs), count_matched(rs)) == 0
    &&& spec_mean(sum_timing_error(rs), count_matched(rs)) == 0
    &&& spec_pitch_tendency(spec_mean(sum_pitch_error(rs), count_matched(rs)))
        == PitchTendency::Accurate
    &&& spec_timing_tendency(spec_mean(sum_timing_error(rs), count_matched(rs)))
        == TimingTendency::OnTime
    &&& spec_overall(
        count_status(rs, NoteStatus::Correct),
        count_status(rs, NoteStatus::WrongPitch),
        n,
        sum_abs_pitch_error(rs),
        count_matched(rs),
    ) == 100_000
}

/// An all-correct, zero-error result list of full length earns the
/// perfect report.
proof fn lemma_perfect_report(rs: Seq<NoteResult>, n: int)
    requires
        rs.len() == n,
        n > 0,
        forall|i: int| 0 <= i < rs.len() ==> {
            &&& (#[trigger] rs[i]).status is Correct
            &&& rs[i].pitch_error_millicents == Some(0i64)
            &&& rs[i].timing_error_milli == Some(0i64)
        },
    ensures
        perfect_report(rs, n),
{
    lemma_all_correct_stats(rs);
    assert(n * 60_000 == 60_000 * n);
    vstd::arithmetic::div_mod::lemma_div_by_multiple(60_000, n);
    assert(n * 20_000 == 20_000 * n);
    vstd::arithmetic::div_mod::lemma_div_by_multiple(20_000, n);
    crate::num::lemma_div_trunc_bound(0, n, 0);
    assert(spec_overall(n, 0, n, 0, n) == 100_000);
}

/// A played list covering the targets one for one, in any order: `pos[k]`
/// names the played note sitting on target `k`, `tgt[j]` names played note
/// `j`'s target, the two maps invert each other, and each played note
/// carries its target's onset and exact pitch.
pub open spec fn covers(
    targets: Seq<NoteEvent>,
    played: Seq<PlayedNote>,
    pos: Seq<int>,
    tgt: Seq<int>,
) -> bool {
    &&& targets.len() == played.len()
    &&& pos.len() == targets.len()
    &&& tgt.len() == played.len()
    &&& forall|k: int| 0 <= k < targets.len() ==> 0 <= #[trigger] pos[k] < played.len()
    &&& forall|j: int| 0 <= j < played.len() ==> 0 <= #[trigger] tgt[j] < targets.len()
    &&& forall|k: int| 0 <= k < targets.len() ==> tgt[#[trigger] pos[k]] == k
    &&& forall|j: int| 0 <= j < played.len() ==> pos[#[trigger] tgt[j]] == j
    &&& forall|j: int| 0 <= j < played.len() ==> {
        &&& (#[trigger] played[j]).onset_beat_milli == targets[tgt[j]].start_beat_milli
        &&& played[j].midi_milli == targets[tgt[j]].midi * 1000
    }
}

/// No two targets share an onset.
pub open spec fn distinct_onsets(targets: Seq<NoteEvent>) -> bool {
    forall|k1: int, k2: int| 0 <= k1 < k2 < targets.len()
        ==> (#[trigger] targets[k1]).start_beat_milli
            != (#[trigger] targets[k2]).start_beat_milli
}

/// With the first `k` targets' notes claimed, target `k`'s search settles
/// on its own covering note: that note sits at distance zero, and with
/// distinct onsets every other unclaimed note sits at least a milli-beat
/// away.
proof fn lemma_cover_best(
    targets: Seq<NoteEvent>,
    played: Seq<PlayedNote>,
    pos: Seq<int>,
    tgt: Seq<int>,
    used: Seq<bool>,
    k: int,
    tol: int,
    m: nat,
)
    requires
        covers(targets, played, pos, tgt),
        distinct_onsets(targets),
        0 <= k < targets.len(),
        used.len() == played.len(),
        forall|j: int| 0 <= j < used.len() ==> ((#[trigger] used[j]) <==> tgt[j] < k),
        tol >= 0,
        m <= played.len(),
    ensures
        ({
            let b = spec_best_in_prefix(
                played, used, targets[k].start_beat_milli as int, tol, m);
            if m > pos[k] {
                b == Some(pos[k])
            } else {
                b is None || (b matches Some(j)
                    && abs_int(played[j].onset_beat_milli - targets[k].start_beat_milli) >= 1)
            }
        }),
    decreases m,
{
    if m > 0 {
        lemma_cover_best(targets, played, pos, tgt, used, k, tol, (m - 1) as nat);
        let t = targets[k].start_beat_milli as int;
        let i = m - 1;
        if !used[i] {
            assert(tgt[i] >= k);
            if tgt[i] == k {
                assert(pos[tgt[i]] == i);
                assert(i == pos[k]);
                assert(abs_int(played[i].onset_beat_milli - t) == 0);
            } else {
                assert(targets[tgt[i]].start_beat_milli != targets[k].start_beat_milli);
                assert(abs_int(played[i].onset_beat_milli - t) >= 1);
                assert(i != pos[k]) by {
                    if i == pos[k] {
                        assert(tgt[pos[k]] == k);
                    }
                }
            }
        } else {
            assert(i != pos[k]) by {
                if i == pos[k] {
                    assert(tgt[pos[k]] == k);
                }
            }
        }
    }
}

/// From target `k` on, a covering performance is matched note for note:
/// each remaining target claims its own note, correct with zero errors.
pub proof fn lemma_cover_suffix(
    targets: Seq<NoteEvent>,
    played: Seq<PlayedNote>,
    pos: Seq<int>,
    tgt: Seq<int>,
    used: Seq<bool>,
    k: int,
    tol_cents: int,
    tol_timing: int,
)
    requires
        covers(targets, played, pos, tgt),
        distinct_onsets(targets),
        0 <= k <= targets.len(),
        used.len() == played.len(),
        forall|j: int| 0 <= j < used.len() ==> ((#[trigger] used[j]) <==> tgt[j] < k),
        tol_cents >= 0,
        tol_timing >= 0,
    ensures
        ({
            let rs = spec_match(targets.skip(k), played, used, tol_cents, tol_timing).0;
            &&& rs.len() == targets.len() - k
            &&& forall|i: int| 0 <= i < rs.len() ==> {
                &&& (#[trigger] rs[i]).status is Correct
                &&& rs[i].pitch_error_millicents == Some(0i64)
                &&& rs[i].timing_error_milli == Some(0i64)
            }
        }),
    decreases targets.len() - k,
{
    let suffix = targets.skip(k);
    if suffix.len() > 0 {
        let t = suffix[0];
        assert(t == targets[k]);
        lemma_cover_best(
            targets, played, pos, tgt, used, k, tol_timing, played.len());
        assert(spec_best_match(played, used, t.start_beat_milli as int, tol_timing)
            == Some(pos[k]));
        let u1 = used.update(pos[k], true);
        assert(forall|j: int| 0 <= j < u1.len() ==> ((#[trigger] u1[j]) <==> tgt[j] < k + 1))
            by {
            assert forall|j: int| 0 <= j < u1.len()
                implies ((#[trigger] u1[j]) <==> tgt[j] < k + 1) by {
                if j != pos[k] && tgt[j] == k {
                    assert(pos[tgt[j]] == j);
                }
            }
        }
        lemma_cover_suffix(targets, played, pos, tgt, u1, k + 1, tol_cents, tol_timing);
        assert(targets.skip(k).drop_first() =~= targets.skip(k + 1));
        let r0 = matched_result(t, played[pos[k]], tol_cents);
        assert(tgt[pos[k]] == k);
        assert(spec_cent_error(played[pos[k]].midi_milli as int, t.midi as int) == 0);
        assert(r0.status is Correct);
        let rs = spec_match(suffix, played, used, tol_cents, tol_timing).0;
        let rest = spec_match(targets.skip(k + 1), played, u1, tol_cents, tol_timing).0;
        assert(rs =~= seq![r0] + rest);
        assert(forall|i: int| 1 <= i < rs.len() ==> rs[i] == #[trigger] rest[i - 1]);
    }
}

/// A performance that covers every target exactly — one played note per
/// target with its onset and pitch, in any order, onsets pairwise distinct
/// — is matched note for note and earns the perfect report.
pub proof fn lemma_perfect_performance_any_order(
    targets: Seq<NoteEvent>,
    played: Seq<PlayedNote>,
    pos: Seq<int>,
    tgt: Seq<int>,
    tol_cents: int,
    tol_timing: int,
)
    requires
        covers(targets, played, pos, tgt),
        distinct_onsets(targets),
        targets.len() > 0,
        tol_cents >= 0,
        tol_timing >= 0,
    ensures
        perfect_report(
            spec_match(targets, played, fresh_mask(played.len()), tol_cents, tol_timing).0,
            targets.len() as int,
        ),
{
    let mask = fresh_mask(played.len());
    assert(forall|j: int| 0 <= j < mask.len() ==> ((#[trigger] mask[j]) <==> tgt[j] < 0));
    lemma_cover_suffix(targets, played, pos, tgt, mask, 0, tol_cents, tol_timing);
    assert(targets.skip(0) =~= targets);
    let rs = spec_match(targets, played, mask, tol_cents, tol_timing).0;
    lemma_perfect_report(rs, targets.len() as int);
}

/// When fewer played notes are supplied than there are targets, at least
/// the deficit goes missed: each played note is claimed at most once, so
/// no more than the played count can be matched.
pub proof fn lemma_missed_deficit(
    targets: Seq<NoteEvent>,
    played: Seq<PlayedNote>,
    tol_cents: int,
    tol_timing: int,
)
    requires
        forall|i: int| 0 <= i < targets.len() ==> (#[trigger] targets[i]).bounded(),
        forall|i: int| 0 <= i < played.len() ==> (#[trigger] played[i]).bounded(),
    ensures
        ({
            let rs = spec_match(
                targets, played, fresh_mask(played.len()), tol_cents, tol_timing).0;
            &&& count_matched(rs) <= played.len()
            &&& count_status(rs, NoteStatus::Missed) == targets.len() - count_matched(rs)
            &&& count_status(rs, NoteStatus::Missed) >= targets.len() - played.len()
        }),
{
    let mask = fresh_mask(played.len());
    lemma_match_properties(targets, played, mask, tol_cents, tol_timing);
    let rs = spec_match(targets, played, mask, tol_cents, tol_timing).0;
    let u2 = spec_match(targets, played, mask, tol_cents, tol_timing).1;
    lemma_count_true_bounds(mask);
    assert(forall|i: int| 0 <= i < mask.len() ==> !mask[i]);
    assert(count_true(mask) == 0);
    lemma_status_partition(rs);
}

/// An all-correct range counts its full width.
proof fn lemma_range_all_correct(rs: Seq<NoteResult>, lo: int, hi: int)
    requires
        0 <= lo,
        hi <= rs.len(),
        forall|i: int| lo <= i < hi ==> (#[trigger] rs[i]).status is Correct,
    ensures
        count_correct_range(rs, lo, hi) == if hi >= lo {
            hi - lo
        } else {
            0int
        },
    decreases hi - lo,
{
    if lo < hi {
        lemma_range_all_correct(rs, lo + 1, hi);
    }
}

/// A range with no correct note counts zero.
proof fn lemma_range_none_correct(rs: Seq<NoteResult>, lo: int, hi: int)
    requires
        forall|i: int| lo <= i < hi ==> !((#[trigger] rs[i]).status is Correct),
    ensures
        count_correct_range(rs, lo, hi) == 0,
    decreases hi - lo,
{
    if lo < hi {
        lemma_range_none_correct(rs, lo + 1, hi);
    }
}

/// A performance whose first half is all correct and whose second half has
/// no correct note at all shows the full endurance collapse: a delta of
/// one hundred points, well beyond the fifty-point mark.
pub proof fn lemma_endurance_collapse(
    targets: Seq<NoteEvent>,
    trail: Seq<PitchTrailPoint>,
    rs: Seq<NoteResult>,
)
    requires
        tech_active(targets, trail),
        rs.len() >= 4,
        forall|i: int| 0 <= i < rs.len() as int / 2 ==> (#[trigger] rs[i]).status is Correct,
        forall|i: int| rs.len() as int / 2 <= i < rs.len()
            ==> !((#[trigger] rs[i]).status is Correct),
    ensures
        spec_endurance(targets, trail, rs) == Some(100_000int),
        spec_endurance(targets, trail, rs)->Some_0 > 50_000,
{
    let n = rs.len() as int;
    let mid = n / 2;
    lemma_range_all_correct(rs, 0, mid);
    lemma_range_none_correct(rs, mid, n);
    assert(count_correct_range(rs, 0, mid) == mid);
    assert(mid * 100_000 == 100_000 * mid);
    vstd::arithmetic::div_mod::lemma_div_by_multiple(100_000, mid);
    assert(count_correct_range(rs, mid, n) == 0);
    crate::num::lemma_div_trunc_bound(0, n - mid, 0);
    assert(0int * 100_000 / (n - mid) == 0) by {
        vstd::arithmetic::div_mod::lemma_div_by_multiple(0, n - mid);
    }
}

} // verus!
