//! Aggregate statistics over the per-note results: status counts, mean
//! pitch and timing errors, tendency labels and the 0-100 overall score.

use vstd::prelude::*;
use crate::num::{abs_int, div_trunc, div_trunc_i64};
use crate::types::{
    NoteResult, NoteStatus, PitchTendency, TimingTendency, LIST_LIMIT,
};
use crate::matching::{result_bounded, CENT_ERR_LIMIT};

verus! {

/// How many results carry the given status.
pub open spec fn count_status(rs: Seq<NoteResult>, st: NoteStatus) -> int
    decreases rs.len(),
{
    if rs.len() == 0 {
        0
    } else {
        (if rs[0].status == st {
            1int
        } else {
            0int
        }) + count_status(rs.drop_first(), st)
    }
}

/// How many results were matched to a played note (not missed).
pub open spec fn count_matched(rs: Seq<NoteResult>) -> int
    decreases rs.len(),
{
    if rs.len() == 0 {
        0
    } else {
        (if rs[0].status is Missed {
            0int
        } else {
            1int
        }) + count_matched(rs.drop_first())
    }
}

/// Sum of the signed pitch errors of the matched results, in milli-cents.
pub open spec fn sum_pitch_error(rs: Seq<NoteResult>) -> int
    decreases rs.len(),
{
    if rs.len() == 0 {
        0
    } else {
        (match rs[0].pitch_error_millicents {
            Option::Some(e) => e as int,
            Option::None => 0int,
        }) + sum_pitch_error(rs.drop_first())
    }
}

/// Sum of the absolute pitch errors of the matched results, in milli-cents.
pub open spec fn sum_abs_pitch_error(rs: Seq<NoteResult>) -> int
    decreases rs.len(),
{
    if rs.len() == 0 {
        0
    } else {
        (match rs[0].pitch_error_millicents {
            Option::Some(e) => abs_int(e as int),
            Option::None => 0int,
        }) + sum_abs_pitch_error(rs.drop_first())
    }
}

/// Sum of the signed timing errors of the matched results, in milli-beats.
pub open spec fn sum_timing_error(rs: Seq<NoteResult>) -> int
    decreases rs.len(),
{
    if rs.len() == 0 {
        0
    } else {
        (match rs[0].timing_error_milli {
            Option::Some(e) => e as int,
            Option::None => 0int,
        }) + sum_timing_error(rs.drop_first())
    }
}

/// Sum of the absolute timing errors of the matched results, in milli-beats.
pub open spec fn sum_abs_timing_error(rs: Seq<NoteResult>) -> int
    decreases rs.len(),
{
    if rs.len() == 0 {
        0
    } else {
        (match rs[0].timing_error_milli {
            Option::Some(e) => abs_int(e as int),
            Option::None => 0int,
        }) + sum_abs_timing_error(rs.drop_first())
    }
}

/// Mean of a sum over a count, truncating toward zero; zero when empty.
pub open spec fn spec_mean(sum: int, count: int) -> int {
    if count > 0 {
        div_trunc(sum, count)
    } else {
        0
    }
}

/// Pitch tendency from the mean signed error: beyond ten cents either way.
pub open spec fn spec_pitch_tendency(avg_millicents: int) -> PitchTendency {
    if avg_millicents > 10_000 {
        PitchTendency::Sharp
    } else if avg_millicents < -10_000 {
        PitchTendency::Flat
    } else {
        PitchTendency::Accurate
    }
}

/// Timing tendency from the mean signed error: beyond a tenth of a beat.
pub open spec fn spec_timing_tendency(avg_millibeats: int) -> TimingTendency {
    if avg_millibeats > 100 {
        TimingTendency::Late
    } else if avg_millibeats < -100 {
        TimingTendency::Early
    } else {
        TimingTendency::OnTime
    }
}

/// The overall 0-100 score in milli units: correct rate weighted 60, hit
/// rate weighted 20, closeness of pitch weighted 20 percent of its 0-100
/// value, capped at 100.
pub open spec fn spec_overall(
    correct: int,
    wrong: int,
    total: int,
    sum_abs_pitch: int,
    matched: int,
) -> int {
    if total <= 0 {
        0
    } else {
        let correct_part = correct * 60_000 / total;
        let hit_part = (correct + wrong) * 20_000 / total;
        let pitch_score = if matched > 0 {
            let abs_avg = sum_abs_pitch / matched;
            if abs_avg >= 100_000 {
                0int
            } else {
                100_000 - abs_avg
            }
        } else {
            0int
        };
        let raw = correct_part + hit_part + pitch_score / 5;
        if raw >= 100_000 {
            100_000int
        } else {
            raw
        }
    }
}

/// The aggregate figures one pass over the results yields.
pub struct MatchStats {
    pub correct: u32,
    pub wrong: u32,
    pub missed: u32,
    pub matched: u32,
    pub sum_pitch: i64,
    pub sum_abs_pitch: u64,
    pub sum_timing: i64,
    pub sum_abs_timing: u64,
}

impl MatchStats {
    /// The counts and sums agree with the spec-level folds over `rs`.
    pub open spec fn matches(self, rs: Seq<NoteResult>) -> bool {
        &&& self.correct == count_status(rs, NoteStatus::Correct)
        &&& self.wrong == count_status(rs, NoteStatus::WrongPitch)
        &&& self.missed == count_status(rs, NoteStatus::Missed)
        &&& self.matched == count_matched(rs)
        &&& self.sum_pitch == sum_pitch_error(rs)
        &&& self.sum_abs_pitch == sum_abs_pitch_error(rs)
        &&& self.sum_timing == sum_timing_error(rs)
        &&& self.sum_abs_timing == sum_abs_timing_error(rs)
    }
}

/// Each per-status count is at most the number of results, each sum at most
/// the per-result bound times the number of results.
pub proof fn lemma_fold_bounds(rs: Seq<NoteResult>)
    requires
        forall|i: int| 0 <= i < rs.len() ==> result_bounded(#[trigger] rs[i]),
    ensures
        0 <= count_status(rs, NoteStatus::Correct) <= rs.len(),
        0 <= count_status(rs, NoteStatus::WrongPitch) <= rs.len(),
        0 <= count_status(rs, NoteStatus::Missed) <= rs.len(),
        0 <= count_matched(rs) <= rs.len(),
        -400_000_000 * rs.len() <= sum_pitch_error(rs) <= 400_000_000 * rs.len(),
        0 <= sum_abs_pitch_error(rs) <= 400_000_000 * rs.len(),
        -2_000_000_000 * rs.len() <= sum_timing_error(rs) <= 2_000_000_000 * rs.len(),
        0 <= sum_abs_timing_error(rs) <= 2_000_000_000 * rs.len(),
        -400_000_000 * count_matched(rs) <= sum_pitch_error(rs)
            <= 400_000_000 * count_matched(rs),
        sum_abs_pitch_error(rs) <= 400_000_000 * count_matched(rs),
        -2_000_000_000 * count_matched(rs) <= sum_timing_error(rs)
            <= 2_000_000_000 * count_matched(rs),
        sum_abs_timing_error(rs) <= 2_000_000_000 * count_matched(rs),
    decreases rs.len(),
{
    if rs.len() > 0 {
        assert(result_bounded(rs[0]));
        assert(forall|i: int| 0 <= i < rs.drop_first().len()
            ==> result_bounded(#[trigger] rs.drop_first()[i]));
        lemma_fold_bounds(rs.drop_first());
    }
}

/// One pass over the results, computing every aggregate the report quotes.
pub fn compute_stats(results: &Vec<NoteResult>) -> (st: MatchStats)
    requires
        results@.len() <= LIST_LIMIT,
        forall|i: int| 0 <= i < results@.len() ==> result_bounded(#[trigger] results@[i]),
    ensures
        st.matches(results@),
{
    let ghost rs = results@;
    let mut st = MatchStats {
        correct: 0,
        wrong: 0,
        missed: 0,
        matched: 0,
        sum_pitch: 0,
        sum_abs_pitch: 0,
        sum_timing: 0,
        sum_abs_timing: 0,
    };
    let mut i: usize = 0;
    proof {
        assert(rs.skip(0) =~= rs);
    }
    while i < results.len()
        invariant
            i <= rs.len(),
            rs.len() <= LIST_LIMIT,
            rs == results@,
            forall|q: int| 0 <= q < rs.len() ==> result_bounded(#[trigger] rs[q]),
            st.correct <= i,
            st.wrong <= i,
            st.missed <= i,
            st.matched <= i,
            -400_000_000 * (i as int) <= st.sum_pitch <= 400_000_000 * (i as int),
            st.sum_abs_pitch <= 400_000_000 * (i as int),
            -2_000_000_000 * (i as int) <= st.sum_timing <= 2_000_000_000 * (i as int),
            st.sum_abs_timing <= 2_000_000_000 * (i as int),
            count_status(rs, NoteStatus::Correct)
                == st.correct + count_status(rs.skip(i as int), NoteStatus::Correct),
            count_status(rs, NoteStatus::WrongPitch)
                == st.wrong + count_status(rs.skip(i as int), NoteStatus::WrongPitch),
            count_status(rs, NoteStatus::Missed)
                == st.missed + count_status(rs.skip(i as int), NoteStatus::Missed),
            count_matched(rs) == st.matched + count_matched(rs.skip(i as int)),
            sum_pitch_error(rs) == st.sum_pitch + sum_pitch_error(rs.skip(i as int)),
            sum_abs_pitch_error(rs)
                == st.sum_abs_pitch + sum_abs_pitch_error(rs.skip(i as int)),
            sum_timing_error(rs) == st.sum_timing + sum_timing_error(rs.skip(i as int)),
            sum_abs_timing_error(rs)
                == st.sum_abs_timing + sum_abs_timing_error(rs.skip(i as int)),
        decreases rs.len() - i,
    {
        proof {
            assert(rs.skip(i as int)[0] == rs[i as int]);
            assert(rs.skip(i as int).drop_first() =~= rs.skip(i as int + 1));
            assert(result_bounded(rs[i as int]));
        }
        let r = &results[i];
        match r.status {
            NoteStatus::Correct => {
                st.correct = st.correct + 1;
            }
            NoteStatus::WrongPitch => {
                st.wrong = st.wrong + 1;
            }
            NoteStatus::Missed => {
                st.missed = st.missed + 1;
            }
        }
        match r.pitch_error_millicents {
            Option::Some(e) => {
                st.matched = st.matched + 1;
                st.sum_pitch = st.sum_pitch + e;
                if e >= 0 {
                    st.sum_abs_pitch = st.sum_abs_pitch + (e as u64);
                } else {
                    st.sum_abs_pitch = st.sum_abs_pitch + ((-(e as i128)) as u64);
                }
            }
            Option::None => {}
        }
        match r.timing_error_milli {
            Option::Some(e) => {
                st.sum_timing = st.sum_timing + e;
                if e >= 0 {
                    st.sum_abs_timing = st.sum_abs_timing + (e as u64);
                } else {
                    st.sum_abs_timing = st.sum_abs_timing + ((-(e as i128)) as u64);
                }
            }
            Option::None => {}
        }
        i = i + 1;
    }
    proof {
        assert(rs.skip(rs.len() as int) =~= Seq::<NoteResult>::empty());
    }
    st
}

/// The mean of a signed sum over a count, truncating toward zero.
pub fn mean_i64(sum: i64, count: u32) -> (m: i64)
    ensures
        m == spec_mean(sum as int, count as int),
{
    if count > 0 {
        div_trunc_i64(sum, count as u64)
    } else {
        0
    }
}

/// The overall 0-100 score, in milli units.
pub fn compute_overall(st: &MatchStats, total: u32) -> (score: u32)
    requires
        st.correct <= total,
        st.wrong <= total,
        st.matched <= total,
        total <= LIST_LIMIT,
        st.sum_abs_pitch <= 400_000_000 * (total as int),
    ensures
        score == spec_overall(
            st.correct as int,
            st.wrong as int,
            total as int,
            st.sum_abs_pitch as int,
            st.matched as int,
        ),
{
    if total == 0 {
        return 0;
    }
    let correct_part: u64 = (st.correct as u64) * 60_000 / (total as u64);
    let hit_part: u64 = ((st.correct as u64) + (st.wrong as u64)) * 20_000 / (total as u64);
    let pitch_score: u64 = if st.matched > 0 {
        let abs_avg: u64 = st.sum_abs_pitch / (st.matched as u64);
        if abs_avg >= 100_000 {
            0
        } else {
            100_000 - abs_avg
        }
    } else {
        0
    };
    let raw: u64 = correct_part + hit_part + pitch_score / 5;
    if raw >= 100_000 {
        100_000
    } else {
        raw as u32
    }
}

/// Pitch tendency label from the mean signed pitch error in milli-cents.
pub fn pitch_tendency_of(avg: i64) -> (t: PitchTendency)
    ensures
        t == spec_pitch_tendency(avg as int),
{
    if avg > 10_000 {
        PitchTendency::Sharp
    } else if avg < -10_000 {
        PitchTendency::Flat
    } else {
        PitchTendency::Accurate
    }
}

/// Timing tendency label from the mean signed timing error in milli-beats.
pub fn timing_tendency_of(avg: i64) -> (t: TimingTendency)
    ensures
        t == spec_timing_tendency(avg as int),
{
    if avg > 100 {
        TimingTendency::Late
    } else if avg < -100 {
        TimingTendency::Early
    } else {
        TimingTendency::OnTime
    }
}

} // verus!
