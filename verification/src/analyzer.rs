//! The performance analyzer: greedy matching of played notes against the
//! score's targets, aggregate pitch and timing statistics, recurring
//! problem intervals, the 0-100 overall score, ordered diagnostic
//! feedback, and the optional technique pass over a pitch trail.

use vstd::prelude::*;
use crate::intervals::{
    collect_problems, problems_match, spec_problems, ProblemData, ProblemModel,
};
use crate::matching::{
    collect_targets, count_true, fresh_mask, lemma_match_properties, match_notes,
    result_bounded, spec_match, spec_targets,
};
use crate::notes::{midi_to_name, spec_midi_name};
use crate::num::div_trunc;
use crate::stats::{
    compute_stats, compute_overall, count_matched, count_status, lemma_fold_bounds, mean_i64,
    pitch_tendency_of, spec_mean, spec_overall, spec_pitch_tendency, spec_timing_tendency,
    sum_abs_pitch_error, sum_abs_timing_error, sum_pitch_error, sum_timing_error,
    timing_tendency_of,
};
use crate::technique::{
    analyze_technique, spec_attack, spec_breath, spec_endurance, spec_stability,
    spec_technique_feedback,
};
use crate::types::{
    Direction, Feedback, IntervalProblem, NoteResult, NoteStatus, PerformanceAnalysis,
    PitchTendency, PitchTrailPoint, PlayedNote, Score, TimingTendency, LIST_LIMIT,
};

verus! {

/// Whole-percent display value of `correct` out of `total`, rounded half up
/// on the truncated milli-percentage.
pub open spec fn spec_round_pct(correct: int, total: int) -> int
    recommends
        total > 0,
{
    (correct * 100_000 / total + 500) / 1000
}

/// Whole-cent display value of a nonnegative milli-cent figure, half up.
pub open spec fn spec_round_cents(millicents: int) -> int
    recommends
        millicents >= 0,
{
    (millicents + 500) / 1000
}

/// The sentence one reported problem interval contributes.
pub open spec fn feedback_of_problem(p: ProblemModel) -> Feedback {
    if p.avg > 0 {
        Feedback::Overshoot {
            from_midi: p.from as i32,
            to_midi: p.to as i32,
            ascending: p.to > p.from,
            cents: spec_round_cents(p.avg) as u32,
        }
    } else {
        Feedback::Undershoot {
            from_midi: p.from as i32,
            to_midi: p.to as i32,
            ascending: p.to > p.from,
            cents: spec_round_cents(-p.avg) as u32,
        }
    }
}

/// One sentence per reported problem interval, worst first.
pub open spec fn spec_problem_feedback(ps: Seq<ProblemModel>) -> Seq<Feedback>
    decreases ps.len(),
{
    if ps.len() == 0 {
        Seq::empty()
    } else {
        spec_problem_feedback(ps.drop_last()).push(feedback_of_problem(ps.last()))
    }
}

/// The report's diagnostic messages, in their fixed rule order: the
/// overall-performance band, missed notes, a sustained pitch bias, a
/// sustained timing bias, then one sentence per problem interval. An empty
/// score gets a single explanatory message; if nothing else fired, a
/// single reminder.
pub open spec fn spec_feedback(
    total: int,
    correct: int,
    missed: int,
    matched: int,
    avg_pitch: int,
    abs_avg_pitch: int,
    avg_timing: int,
    abs_avg_timing: int,
    problems: Seq<ProblemModel>,
) -> Seq<Feedback> {
    if total <= 0 {
        seq![Feedback::NoNotes]
    } else {
        let pct = spec_round_pct(correct, total) as u32;
        let s1 = if correct * 10 >= 9 * total {
            seq![Feedback::Excellent { pct }]
        } else if correct * 10 >= 7 * total {
            seq![Feedback::Good { pct }]
        } else if correct * 2 >= total {
            seq![Feedback::Steady { pct }]
        } else {
            seq![Feedback::Tough { pct }]
        };
        let s2 = if missed > 0 {
            s1.push(Feedback::MissedNotes { count: missed as u32 })
        } else {
            s1
        };
        let s3 = if matched > 0 && abs_avg_pitch > 30_000 {
            if avg_pitch > 10_000 {
                s2.push(Feedback::SharpBias { cents: spec_round_cents(avg_pitch) as u32 })
            } else if avg_pitch < -10_000 {
                s2.push(Feedback::FlatBias { cents: spec_round_cents(-avg_pitch) as u32 })
            } else {
                s2
            }
        } else {
            s2
        };
        let s4 = if matched > 0 && abs_avg_timing > 150 {
            if avg_timing > 100 {
                s3.push(Feedback::LateBias)
            } else if avg_timing < -100 {
                s3.push(Feedback::EarlyBias)
            } else {
                s3
            }
        } else {
            s3
        };
        let s5 = s4 + spec_problem_feedback(problems);
        if s5.len() == 0 {
            seq![Feedback::MicReminder]
        } else {
            s5
        }
    }
}

/// The named problem records carry exactly the model's figures, the names
/// rendered from the model's pitches.
pub open spec fn problems_named(ps: Seq<IntervalProblem>, ms: Seq<ProblemModel>) -> bool {
    &&& ps.len() == ms.len()
    &&& forall|i: int| 0 <= i < ps.len() ==> {
        &&& (#[trigger] ps[i]).from_note@ == spec_midi_name(ms[i].from)
        &&& ps[i].to_note@ == spec_midi_name(ms[i].to)
        &&& ps[i].direction == (if ms[i].to > ms[i].from {
            Direction::Up
        } else {
            Direction::Down
        })
        &&& ps[i].avg_error_millicents == ms[i].avg
        &&& ps[i].count == ms[i].count
    }
}

/// Analysis of a performance against a score: per-note outcomes, aggregate
/// statistics, problem intervals, ordered feedback and the overall score;
/// technique metrics stay empty without a pitch trail.
pub fn analyze_performance(
    score: &Score,
    played_notes: &[PlayedNote],
    tolerance_cents_milli: u64,
    timing_tolerance_milli: u64,
) -> (r: PerformanceAnalysis)
    requires
        score.bounded(),
        played_notes@.len() <= LIST_LIMIT,
        forall|i: int| 0 <= i < played_notes@.len()
            ==> (#[trigger] played_notes@[i]).bounded(),
        tolerance_cents_milli <= 1_000_000_000,
        timing_tolerance_milli <= 1_000_000_000,
    ensures
        analysis_matches(
            r,
            score.notes@,
            played_notes@,
            tolerance_cents_milli as int,
            timing_tolerance_milli as int,
        ),
        r.pitch_stability_millicents is None,
        r.attack_quality_milli is None,
        r.breath_support_milli is None,
        r.endurance_delta_milli is None,
        r.technique_feedback@.len() == 0,
{
    analyze_performance_with_trail(
        score,
        played_notes,
        tolerance_cents_milli,
        timing_tolerance_milli,
        None,
    )
}

/// Everything the report states about matching, statistics, problem
/// intervals, feedback and the overall score, as one predicate over the
/// spec model.
pub open spec fn analysis_matches(
    r: PerformanceAnalysis,
    notes: Seq<crate::types::NoteEvent>,
    played: Seq<PlayedNote>,
    tol_cents: int,
    tol_timing: int,
) -> bool {
    let tg = spec_targets(notes);
    let rs = spec_match(tg, played, fresh_mask(played.len()), tol_cents, tol_timing).0;
    let correct = count_status(rs, NoteStatus::Correct);
    let wrong = count_status(rs, NoteStatus::WrongPitch);
    let missed = count_status(rs, NoteStatus::Missed);
    let matched = count_matched(rs);
    let avg_p = spec_mean(sum_pitch_error(rs), matched);
    let abs_avg_p = spec_mean(sum_abs_pitch_error(rs), matched);
    let avg_t = spec_mean(sum_timing_error(rs), matched);
    let abs_avg_t = spec_mean(sum_abs_timing_error(rs), matched);
    let problems = spec_problems(rs, tol_cents);
    &&& r.note_results@ == rs
    &&& r.total_notes == tg.len()
    &&& r.notes_correct == correct
    &&& r.notes_wrong_pitch == wrong
    &&& r.notes_missed == missed
    &&& r.avg_pitch_error_millicents == avg_p
    &&& r.avg_timing_error_milli == avg_t
    &&& r.pitch_tendency == spec_pitch_tendency(avg_p)
    &&& r.timing_tendency == spec_timing_tendency(avg_t)
    &&& r.overall_score_milli == spec_overall(
        correct, wrong, tg.len() as int, sum_abs_pitch_error(rs), matched)
    &&& problems_named(r.problem_intervals@, problems)
    &&& r.feedback@ == spec_feedback(
        tg.len() as int, correct, missed, matched, avg_p, abs_avg_p, avg_t, abs_avg_t,
        problems)
}

/// As `analyze_performance`, with a dense pitch trail enabling the
/// technique metrics: in-note stability, attack quality, breath support on
/// long notes, the endurance delta, and their sentences.
pub fn analyze_performance_with_trail(
    score: &Score,
    played_notes: &[PlayedNote],
    tolerance_cents_milli: u64,
    timing_tolerance_milli: u64,
    pitch_trail: Option<&[PitchTrailPoint]>,
) -> (r: PerformanceAnalysis)
    requires
        score.bounded(),
        played_notes@.len() <= LIST_LIMIT,
        forall|i: int| 0 <= i < played_notes@.len()
            ==> (#[trigger] played_notes@[i]).bounded(),
        tolerance_cents_milli <= 1_000_000_000,
        timing_tolerance_milli <= 1_000_000_000,
        match pitch_trail {
            Option::Some(trail) => trail@.len() <= LIST_LIMIT
                && forall|i: int| 0 <= i < trail@.len()
                    ==> (#[trigger] trail@[i]).bounded(),
            Option::None => true,
        },
    ensures
        analysis_matches(
            r,
            score.notes@,
            played_notes@,
            tolerance_cents_milli as int,
            timing_tolerance_milli as int,
        ),
        ({
            let tg = spec_targets(score.notes@);
            let rs = spec_match(
                tg,
                played_notes@,
                fresh_mask(played_notes@.len()),
                tolerance_cents_milli as int,
                timing_tolerance_milli as int,
            ).0;
            match pitch_trail {
                Option::Some(trail) => {
                    &&& (r.pitch_stability_millicents is Some
                        <==> spec_stability(tg, trail@) is Some)
                    &&& (r.pitch_stability_millicents matches Some(v)
                        ==> spec_stability(tg, trail@) == Some(v as int))
                    &&& (r.attack_quality_milli is Some <==> spec_attack(tg, trail@) is Some)
                    &&& (r.attack_quality_milli matches Some(v)
                        ==> spec_attack(tg, trail@) == Some(v as int))
                    &&& (r.breath_support_milli is Some <==> spec_breath(tg, trail@) is Some)
                    &&& (r.breath_support_milli matches Some(v)
                        ==> spec_breath(tg, trail@) == Some(v as int))
                    &&& (r.endurance_delta_milli is Some
                        <==> spec_endurance(tg, trail@, rs) is Some)
                    &&& (r.endurance_delta_milli matches Some(v)
                        ==> spec_endurance(tg, trail@, rs) == Some(v as int))
                    &&& r.technique_feedback@ == spec_technique_feedback(tg, trail@, rs)
                }
                Option::None => {
                    &&& r.pitch_stability_millicents is None
                    &&& r.attack_quality_milli is None
                    &&& r.breath_support_milli is None
                    &&& r.endurance_delta_milli is None
                    &&& r.technique_feedback@.len() == 0
                }
            }
        }),
{
    let ghost tol_c: int = tolerance_cents_milli as int;
    let ghost tol_t: int = timing_tolerance_milli as int;
    let ghost tg = spec_targets(score.notes@);
    let ghost mask = fresh_mask(played_notes@.len());
    let ghost rs = spec_match(tg, played_notes@, mask, tol_c, tol_t).0;

    let targets = collect_targets(&score.notes);
    proof {
        lemma_targets_sub(score.notes@);
        lemma_match_properties(tg, played_notes@, mask, tol_c, tol_t);
        lemma_fold_bounds(rs);
    }

    if targets.len() == 0 {
        let mut feedback: Vec<Feedback> = Vec::new();
        feedback.push(Feedback::NoNotes);
        proof {
            assert(rs =~= Seq::<NoteResult>::empty());
            assert(feedback@ =~= seq![Feedback::NoNotes]);
        }
        let empty_results: Vec<NoteResult> = Vec::new();
        let empty_problems: Vec<IntervalProblem> = Vec::new();
        let empty_tech: Vec<crate::types::TechniqueFeedback> = Vec::new();
        return PerformanceAnalysis {
            total_notes: 0,
            notes_correct: 0,
            notes_wrong_pitch: 0,
            notes_missed: 0,
            avg_pitch_error_millicents: 0,
            avg_timing_error_milli: 0,
            pitch_tendency: PitchTendency::Accurate,
            timing_tendency: TimingTendency::OnTime,
            problem_intervals: empty_problems,
            feedback,
            overall_score_milli: 0,
            note_results: empty_results,
            pitch_stability_millicents: None,
            attack_quality_milli: None,
            breath_support_milli: None,
            endurance_delta_milli: None,
            technique_feedback: empty_tech,
        };
    }

    let results = match_notes(
        &targets, played_notes, tolerance_cents_milli, timing_tolerance_milli);
    let st = compute_stats(&results);
    let total: u32 = targets.len() as u32;

    let avg_pitch: i64 = mean_i64(st.sum_pitch, st.matched);
    let avg_timing: i64 = mean_i64(st.sum_timing, st.matched);
    let abs_avg_pitch: u64 = if st.matched > 0 {
        st.sum_abs_pitch / (st.matched as u64)
    } else {
        0
    };
    let abs_avg_timing: u64 = if st.matched > 0 {
        st.sum_abs_timing / (st.matched as u64)
    } else {
        0
    };
    proof {
        if st.matched > 0 {
            assert(abs_avg_pitch as int == div_trunc(
                sum_abs_pitch_error(rs), count_matched(rs)));
            assert(abs_avg_timing as int == div_trunc(
                sum_abs_timing_error(rs), count_matched(rs)));
            crate::num::lemma_div_trunc_bound(
                sum_pitch_error(rs), count_matched(rs), 400_000_000);
        }
    }
    let pitch_tendency = pitch_tendency_of(avg_pitch);
    let timing_tendency = timing_tendency_of(avg_timing);
    let overall = compute_overall(&st, total);

    let problem_data = collect_problems(&results, tolerance_cents_milli);
    let ghost pmodels = spec_problems(rs, tol_c);

    // Name the problem intervals for the report.
    let mut problem_intervals: Vec<IntervalProblem> = Vec::new();
    let mut i: usize = 0;
    while i < problem_data.len()
        invariant
            i <= problem_data@.len(),
            problems_match(problem_data@, pmodels),
            problems_named(problem_intervals@, pmodels.take(i as int)),
        decreases problem_data@.len() - i,
    {
        let d = &problem_data[i];
        let direction = if d.to_midi > d.from_midi {
            Direction::Up
        } else {
            Direction::Down
        };
        problem_intervals.push(IntervalProblem {
            from_note: midi_to_name(d.from_midi),
            to_note: midi_to_name(d.to_midi),
            direction,
            avg_error_millicents: d.avg_millicents,
            count: d.count,
        });
        i = i + 1;
    }
    proof {
        assert(pmodels.take(pmodels.len() as int) =~= pmodels);
    }

    // Diagnostic feedback, in rule order.
    let ghost fb_spec = spec_feedback(
        tg.len() as int,
        count_status(rs, NoteStatus::Correct),
        count_status(rs, NoteStatus::Missed),
        count_matched(rs),
        avg_pitch as int,
        abs_avg_pitch as int,
        avg_timing as int,
        abs_avg_timing as int,
        pmodels,
    );
    let mut feedback: Vec<Feedback> = Vec::new();
    let pct: u32 = (((st.correct as u64) * 100_000 / (total as u64) + 500) / 1000) as u32;
    if (st.correct as u64) * 10 >= 9 * (total as u64) {
        feedback.push(Feedback::Excellent { pct });
    } else if (st.correct as u64) * 10 >= 7 * (total as u64) {
        feedback.push(Feedback::Good { pct });
    } else if (st.correct as u64) * 2 >= total as u64 {
        feedback.push(Feedback::Steady { pct });
    } else {
        feedback.push(Feedback::Tough { pct });
    }
    if st.missed > 0 {
        feedback.push(Feedback::MissedNotes { count: st.missed });
    }
    if st.matched > 0 && abs_avg_pitch > 30_000 {
        if avg_pitch > 10_000 {
            feedback.push(Feedback::SharpBias {
                cents: (((avg_pitch as u64) + 500) / 1000) as u32,
            });
        } else if avg_pitch < -10_000 {
            feedback.push(Feedback::FlatBias {
                cents: ((((-(avg_pitch as i128)) as u64) + 500) / 1000) as u32,
            });
        }
    }
    if st.matched > 0 && abs_avg_timing > 150 {
        if avg_timing > 100 {
            feedback.push(Feedback::LateBias);
        } else if avg_timing < -100 {
            feedback.push(Feedback::EarlyBias);
        }
    }
    let ghost fb_pre = feedback@;
    let mut p: usize = 0;
    while p < problem_data.len()
        invariant
            p <= problem_data@.len(),
            problems_match(problem_data@, pmodels),
            forall|q: int| 0 <= q < problem_data@.len()
                ==> -400_000_000 <= (#[trigger] problem_data@[q]).avg_millicents
                    <= 400_000_000,
            feedback@ == fb_pre + spec_problem_feedback(pmodels.take(p as int)),
        decreases problem_data@.len() - p,
    {
        proof {
            assert(pmodels.take(p + 1).drop_last() =~= pmodels.take(p as int));
            assert(pmodels.take(p + 1).last() == pmodels[p as int]);
        }
        let d = &problem_data[p];
        if d.avg_millicents > 0 {
            feedback.push(Feedback::Overshoot {
                from_midi: d.from_midi,
                to_midi: d.to_midi,
                ascending: d.to_midi > d.from_midi,
                cents: (((d.avg_millicents as u64) + 500) / 1000) as u32,
            });
        } else {
            feedback.push(Feedback::Undershoot {
                from_midi: d.from_midi,
                to_midi: d.to_midi,
                ascending: d.to_midi > d.from_midi,
                cents: ((((-(d.avg_millicents as i128)) as u64) + 500) / 1000) as u32,
            });
        }
        p = p + 1;
    }
    proof {
        assert(pmodels.take(pmodels.len() as int) =~= pmodels);
        assert(feedback@.len() > 0);
        assert(feedback@ =~= fb_spec);
    }
    if feedback.len() == 0 {
        feedback.push(Feedback::MicReminder);
    }

    // Technique metrics, when a trail was supplied.
    let (stability, attack, breath, endurance, technique_feedback) = match pitch_trail {
        Option::Some(trail) => analyze_technique(&targets, &results, trail),
        Option::None => (None, None, None, None, Vec::new()),
    };

    PerformanceAnalysis {
        total_notes: total,
        notes_correct: st.correct,
        notes_wrong_pitch: st.wrong,
        notes_missed: st.missed,
        avg_pitch_error_millicents: avg_pitch,
        avg_timing_error_milli: avg_timing,
        pitch_tendency,
        timing_tendency,
        problem_intervals,
        feedback,
        overall_score_milli: overall,
        note_results: results,
        pitch_stability_millicents: stability,
        attack_quality_milli: attack,
        breath_support_milli: breath,
        endurance_delta_milli: endurance,
        technique_feedback,
    }
}

/// The targets inherit the score's bounds.
pub proof fn lemma_targets_sub(notes: Seq<crate::types::NoteEvent>)
    requires
        notes.len() <= LIST_LIMIT,
        forall|i: int| 0 <= i < notes.len() ==> (#[trigger] notes[i]).bounded(),
    ensures
        spec_targets(notes).len() <= notes.len(),
        forall|i: int| 0 <= i < spec_targets(notes).len()
            ==> (#[trigger] spec_targets(notes)[i]).bounded(),
    decreases notes.len(),
{
    if notes.len() > 0 {
        assert(forall|i: int| 0 <= i < notes.drop_last().len()
            ==> (#[trigger] notes.drop_last()[i]).bounded());
        lemma_targets_sub(notes.drop_last());
    }
}

} // verus!
