use pitch_trainer::analyzer::{analyze_performance, analyze_performance_with_trail};
use pitch_trainer::types::{
    Direction, Feedback, NoteEvent, NoteStatus, NoteType, PitchTendency, PitchTrailPoint,
    PlayedNote, Score, TimingTendency,
};

fn make_score(notes: Vec<(i64, i64, i32)>) -> Score {
    Score {
        tempo_milli: 120_000,
        notes: notes
            .into_iter()
            .map(|(beat, dur, midi)| NoteEvent {
                start_beat_milli: beat,
                duration_beats_milli: dur,
                midi,
                is_rest: false,
                measure_number: 1,
                note_type: NoteType::Quarter,
            })
            .collect(),
        measures: vec![],
        key_fifths: 0,
        transpose: None,
        title: None,
        total_beats_milli: 4000,
    }
}

fn played(onset_beat_milli: i64, midi_milli: i64) -> PlayedNote {
    PlayedNote {
        onset_beat_milli,
        midi_milli,
        midi_rounded: ((midi_milli + 500) / 1000) as i32,
        confidence_milli: 900,
    }
}

#[test]
fn test_perfect_performance() {
    let score = make_score(vec![(0, 1000, 60), (1000, 1000, 62), (2000, 1000, 64)]);
    let notes = vec![played(0, 60_000), played(1000, 62_000), played(2000, 64_000)];

    let result = analyze_performance(&score, &notes, 50_000, 250);
    assert_eq!(result.total_notes, 3);
    assert_eq!(result.notes_correct, 3);
    assert_eq!(result.notes_missed, 0);
    assert_eq!(result.notes_wrong_pitch, 0);
    assert!(result.overall_score_milli > 70_000);
    assert_eq!(result.overall_score_milli, 100_000);
    assert_eq!(result.pitch_tendency, PitchTendency::Accurate);
    assert_eq!(result.timing_tendency, TimingTendency::OnTime);
}

#[test]
fn test_missed_notes() {
    let score = make_score(vec![(0, 1000, 60), (1000, 1000, 62), (2000, 1000, 64)]);
    let notes = vec![played(0, 60_000)];

    let result = analyze_performance(&score, &notes, 50_000, 250);
    assert_eq!(result.notes_correct, 1);
    assert_eq!(result.notes_missed, 2);
}

#[test]
fn test_sharp_tendency() {
    let score = make_score(vec![(0, 1000, 60), (1000, 1000, 62)]);
    let notes = vec![played(0, 60_200), played(1000, 62_300)];

    let result = analyze_performance(&score, &notes, 50_000, 250);
    assert_eq!(result.notes_correct, 2);
    assert_eq!(result.pitch_tendency, PitchTendency::Sharp);
}

#[test]
fn test_wrong_pitch() {
    let score = make_score(vec![(0, 1000, 60)]);
    // 200 cents off: classified wrong pitch, not correct, not missed.
    let notes = vec![played(0, 62_000)];

    let result = analyze_performance(&score, &notes, 50_000, 250);
    assert_eq!(result.notes_wrong_pitch, 1);
    assert_eq!(result.notes_correct, 0);
    assert_eq!(result.notes_missed, 0);
    assert_eq!(result.note_results[0].status, NoteStatus::WrongPitch);
    assert_eq!(result.note_results[0].pitch_error_millicents, Some(200_000));
}

#[test]
fn test_empty_score() {
    let score = Score {
        tempo_milli: 120_000,
        notes: vec![],
        measures: vec![],
        key_fifths: 0,
        transpose: None,
        title: None,
        total_beats_milli: 0,
    };
    let result = analyze_performance(&score, &[], 50_000, 250);
    assert_eq!(result.total_notes, 0);
    assert_eq!(result.feedback, vec![Feedback::NoNotes]);
}

#[test]
fn test_technique_analysis_with_trail() {
    let score = make_score(vec![(0, 4000, 60), (4000, 4000, 62)]);
    let notes = vec![played(0, 60_000), played(4000, 62_000)];
    // A very stable trail on the first note, wobbling on the second.
    let mut trail = Vec::new();
    for i in 0..20i64 {
        trail.push(PitchTrailPoint { beat_milli: i * 200, midi_milli: 60_010 });
    }
    for i in 0..20i64 {
        let wobble = if i % 2 == 0 { 300 } else { -300 };
        trail.push(PitchTrailPoint { beat_milli: 4000 + i * 200, midi_milli: 62_000 + wobble });
    }

    let result = analyze_performance_with_trail(&score, &notes, 50_000, 500, Some(&trail));
    assert_eq!(result.notes_correct, 2);
    assert!(result.pitch_stability_millicents.is_some());
    assert!(result.attack_quality_milli.is_some());
    assert!(result.breath_support_milli.is_some());
}

#[test]
fn test_endurance_delta() {
    // 8 notes, first 4 perfect, last 4 missed.
    let score = make_score(vec![
        (0, 1000, 60),
        (1000, 1000, 62),
        (2000, 1000, 64),
        (3000, 1000, 65),
        (4000, 1000, 67),
        (5000, 1000, 69),
        (6000, 1000, 71),
        (7000, 1000, 72),
    ]);
    let notes = vec![
        played(0, 60_000),
        played(1000, 62_000),
        played(2000, 64_000),
        played(3000, 65_000),
        // last 4 missed
    ];
    let trail: Vec<PitchTrailPoint> = (0..40i64)
        .map(|i| PitchTrailPoint { beat_milli: i * 200, midi_milli: 60_000 })
        .collect();
    let result = analyze_performance_with_trail(&score, &notes, 50_000, 500, Some(&trail));
    // First half: 4/4 correct, second half: 0/4 correct => delta = 100 points.
    assert!(result.endurance_delta_milli.is_some());
    let delta = result.endurance_delta_milli.unwrap();
    assert!(delta > 50_000, "Expected large endurance delta, got {}", delta);
    assert_eq!(delta, 100_000);
}

#[test]
fn test_repeated_interval_problem() {
    // The same upward jump from C4 to G4 is overshot twice: exactly one
    // problem interval, named and counted.
    let score = make_score(vec![
        (0, 1000, 60),
        (1000, 1000, 67),
        (2000, 1000, 60),
        (3000, 1000, 67),
    ]);
    let notes = vec![
        played(0, 60_000),
        played(1000, 67_400), // +40 cents on the jump's landing note
        played(2000, 60_000),
        played(3000, 67_400),
    ];
    let result = analyze_performance(&score, &notes, 50_000, 250);
    assert_eq!(result.problem_intervals.len(), 1);
    let p = &result.problem_intervals[0];
    assert_eq!(p.from_note, "C4");
    assert_eq!(p.to_note, "G4");
    assert_eq!(p.direction, Direction::Up);
    assert_eq!(p.count, 2);
    assert_eq!(p.avg_error_millicents, 40_000);
    // The feedback quotes the same jump as an overshoot.
    assert!(result.feedback.contains(&Feedback::Overshoot {
        from_midi: 60,
        to_midi: 67,
        ascending: true,
        cents: 40,
    }));
}

#[test]
fn test_single_slip_is_not_a_problem() {
    // One overshoot alone never becomes a problem interval.
    let score = make_score(vec![(0, 1000, 60), (1000, 1000, 67)]);
    let notes = vec![played(0, 60_000), played(1000, 67_400)];
    let result = analyze_performance(&score, &notes, 50_000, 250);
    assert_eq!(result.problem_intervals.len(), 0);
}

#[test]
fn test_missed_note_feedback() {
    let score = make_score(vec![(0, 1000, 60), (1000, 1000, 62)]);
    let notes = vec![played(0, 60_000)];
    let result = analyze_performance(&score, &notes, 50_000, 250);
    assert!(result.feedback.contains(&Feedback::MissedNotes { count: 1 }));
}

#[test]
fn test_sharp_bias_feedback() {
    // A consistent +40 cent error: sharp tendency with a bias sentence.
    let score = make_score(vec![(0, 1000, 60), (1000, 1000, 62)]);
    let notes = vec![played(0, 60_400), played(1000, 62_400)];
    let result = analyze_performance(&score, &notes, 50_000, 250);
    assert_eq!(result.pitch_tendency, PitchTendency::Sharp);
    assert!(result.feedback.contains(&Feedback::SharpBias { cents: 40 }));
}

#[test]
fn test_timing_bias_feedback() {
    // Entries consistently 0.2 beats late, within a wide tolerance.
    let score = make_score(vec![(0, 1000, 60), (1000, 1000, 62)]);
    let notes = vec![played(200, 60_000), played(1200, 62_000)];
    let result = analyze_performance(&score, &notes, 50_000, 400);
    assert_eq!(result.timing_tendency, TimingTendency::Late);
    assert!(result.feedback.contains(&Feedback::LateBias));
    assert_eq!(result.avg_timing_error_milli, 200);
}

#[test]
fn test_perfect_performance_out_of_order() {
    // The same flawless take, with the detected notes listed in reverse:
    // the matcher still pairs every target with its own note.
    let score = make_score(vec![(0, 1000, 60), (1000, 1000, 62), (2000, 1000, 64)]);
    let notes = vec![played(2000, 64_000), played(1000, 62_000), played(0, 60_000)];

    let result = analyze_performance(&score, &notes, 50_000, 250);
    assert_eq!(result.notes_correct, 3);
    assert_eq!(result.notes_missed, 0);
    assert_eq!(result.notes_wrong_pitch, 0);
    assert_eq!(result.avg_pitch_error_millicents, 0);
    assert_eq!(result.avg_timing_error_milli, 0);
    assert_eq!(result.overall_score_milli, 100_000);
    assert_eq!(result.pitch_tendency, PitchTendency::Accurate);
    assert_eq!(result.timing_tendency, TimingTendency::OnTime);
}

#[test]
fn test_greedy_matching_is_stable() {
    // Two played notes at the same distance from one target: the earlier
    // one in scan order wins; each played note is used at most once.
    let score = make_score(vec![(1000, 1000, 60), (2000, 1000, 62)]);
    let notes = vec![played(900, 60_000), played(1100, 62_000)];
    let result = analyze_performance(&score, &notes, 50_000, 1000);
    // Target 1 takes the first note (distance 100 each way, first found
    // wins); target 2 then gets the second.
    assert_eq!(result.note_results[0].timing_error_milli, Some(-100));
    assert_eq!(result.note_results[1].timing_error_milli, Some(-900));
}
