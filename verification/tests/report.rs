use pitch_trainer::types::{Feedback, TechniqueFeedback};

#[test]
fn test_feedback_sentences() {
    assert_eq!(
        Feedback::NoNotes.text(),
        "No notes in score to analyze."
    );
    assert_eq!(
        Feedback::Excellent { pct: 95 }.text(),
        "Excellent! You nailed 95% of the notes."
    );
    assert_eq!(
        Feedback::Good { pct: 75 }.text(),
        "Good job! You got 75% of the notes right."
    );
    assert_eq!(
        Feedback::Steady { pct: 50 }.text(),
        "Keep practicing! You hit 50% of the notes correctly."
    );
    assert_eq!(
        Feedback::Tough { pct: 25 }.text(),
        "This one's tough! You got 25% correct. Try slowing down the tempo."
    );
}

#[test]
fn test_missed_note_sentence_pluralizes() {
    assert_eq!(
        Feedback::MissedNotes { count: 1 }.text(),
        "You missed 1 note. Make sure to play through the whole piece."
    );
    assert_eq!(
        Feedback::MissedNotes { count: 3 }.text(),
        "You missed 3 notes. Make sure to play through the whole piece."
    );
}

#[test]
fn test_bias_sentences() {
    assert_eq!(
        Feedback::SharpBias { cents: 34 }.text(),
        "Your pitch is consistently 34 cents sharp. Try relaxing your embouchure slightly."
    );
    assert_eq!(
        Feedback::FlatBias { cents: 31 }.text(),
        "Your pitch is consistently 31 cents flat. Try firming up your embouchure and using more air support."
    );
}

#[test]
fn test_interval_sentences_name_both_pitches() {
    assert_eq!(
        Feedback::Overshoot { from_midi: 60, to_midi: 67, ascending: true, cents: 40 }.text(),
        "You overshoot when going ascending from C4 to G4 (avg +40 cents). Try less pressure on the jump."
    );
    assert_eq!(
        Feedback::Undershoot { from_midi: 67, to_midi: 60, ascending: false, cents: 28 }.text(),
        "You undershoot when going descending from G4 to C4 (avg -28 cents). Use more air support on the jump."
    );
}

#[test]
fn test_technique_sentences() {
    assert_eq!(
        TechniqueFeedback::UnsteadyPitch.text(),
        "Your pitch wobbles on sustained notes. Focus on steady airflow."
    );
    assert_eq!(
        TechniqueFeedback::SlowAttacks.text(),
        "Your note attacks are slow to center. Try a firmer tongue stroke."
    );
    assert_eq!(
        TechniqueFeedback::FadingSupport.text(),
        "Your pitch drops through long notes. Practice deep breathing."
    );
    assert_eq!(
        TechniqueFeedback::EnduranceDrop.text(),
        "Your accuracy drops later in the piece. Build endurance with long tones."
    );
}
