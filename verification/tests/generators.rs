use pitch_trainer::generators::{generate, key_to_midi};
use pitch_trainer::types::NoteType;

#[test]
fn test_key_to_midi() {
    assert_eq!(key_to_midi("C4").unwrap(), 60);
    assert_eq!(key_to_midi("A4").unwrap(), 69);
    assert_eq!(key_to_midi("Bb3").unwrap(), 58);
    assert_eq!(key_to_midi("F#4").unwrap(), 66);
    assert_eq!(key_to_midi("C").unwrap(), 60); // default octave 4
}

#[test]
fn test_key_to_midi_rejects_bad_keys() {
    assert!(key_to_midi("").is_err());
    assert!(key_to_midi("   ").is_err());
    assert!(key_to_midi("C4x").is_err());
    assert!(key_to_midi("Cb").unwrap() == 59);
}

#[test]
fn test_key_to_midi_trims_unicode_whitespace() {
    assert_eq!(key_to_midi(" C4\u{A0}").unwrap(), 60);
    assert_eq!(key_to_midi("\u{2003}Bb3\t").unwrap(), 58);
}

#[test]
fn test_key_to_midi_wide_octaves() {
    // Any octave that parses as a 32-bit integer is accepted, however
    // unmusical; only true 32-bit overflow is refused.
    assert_eq!(key_to_midi("C2000000").unwrap(), 24_000_012);
    assert_eq!(key_to_midi("C0000000004").unwrap(), 60);
    assert_eq!(key_to_midi("C+4").unwrap(), 60);
    assert_eq!(key_to_midi("C-1").unwrap(), 0);
    assert_eq!(key_to_midi("C-2000000").unwrap(), -23_999_988);
    // The octave itself no longer fits a 32-bit integer.
    assert!(key_to_midi("C2147483648").is_err());
    // The octave parses, but the pitch arithmetic would overflow.
    assert!(key_to_midi("C2147483647").is_err());
    assert!(key_to_midi("C-2147483648").is_err());
    assert_eq!(key_to_midi("C178956969").unwrap(), 2_147_483_640);
    assert!(key_to_midi("C178956970").is_err());
}

#[test]
fn test_generate_major_scale() {
    let score = generate("major_scale", "C4", 120_000).unwrap();
    assert!(!score.notes.is_empty());
    // First note should be C4
    assert_eq!(score.notes[0].midi, 60);
    // Should have 16 notes (8 up + 7 down + 1 final root)
    assert_eq!(score.notes.len(), 16);
    // 8th note should be C5 (top of scale)
    assert_eq!(score.notes[7].midi, 72);
}

#[test]
fn test_generate_all_types() {
    for exercise_type in &[
        "long_tones",
        "major_scale",
        "chromatic",
        "lip_slurs",
        "intervals",
        "arpeggios",
    ] {
        let result = generate(exercise_type, "C4", 100_000);
        assert!(result.is_ok(), "Failed to generate {}", exercise_type);
        let score = result.unwrap();
        assert!(!score.notes.is_empty(), "{} has no notes", exercise_type);
        assert!(score.total_beats_milli > 0, "{} has no beats", exercise_type);
    }
}

#[test]
fn test_unknown_type() {
    let result = generate("nonexistent", "C4", 120_000);
    assert!(result.is_err());
}

#[test]
fn test_long_tones_shape() {
    let score = generate("long_tones", "C4", 60_000).unwrap();
    assert_eq!(score.notes.len(), 25);
    assert_eq!(score.notes[0].midi, 60);
    assert_eq!(score.notes[12].midi, 72);
    assert_eq!(score.notes[24].midi, 60);
    assert_eq!(score.notes[0].note_type, NoteType::Whole);
    assert_eq!(score.notes[0].duration_beats_milli, 4000);
    assert_eq!(score.total_beats_milli, 100_000);
    assert_eq!(score.measures.len(), 25);
}
