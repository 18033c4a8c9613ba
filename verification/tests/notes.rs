use pitch_trainer::notes::{midi_from_pitch, midi_to_name};

#[test]
fn test_midi_from_pitch() {
    assert_eq!(midi_from_pitch('C', 0, 4), 60);
    assert_eq!(midi_from_pitch('A', 0, 4), 69);
    assert_eq!(midi_from_pitch('C', 1, 4), 61);
    assert_eq!(midi_from_pitch('B', -1, 4), 70);
    assert_eq!(midi_from_pitch('G', 0, 3), 55);
}

#[test]
fn test_midi_to_name_naturals_and_sharps() {
    assert_eq!(midi_to_name(60), "C4");
    assert_eq!(midi_to_name(69), "A4");
    assert_eq!(midi_to_name(58), "A#3");
    assert_eq!(midi_to_name(61), "C#4");
    assert_eq!(midi_to_name(0), "C-1");
}

#[test]
fn test_midi_to_name_round_trip_on_naturals() {
    // A name rendered from a natural pitch parses back to the same pitch.
    for (midi, name) in [(48, "C3"), (55, "G3"), (71, "B4"), (72, "C5")] {
        assert_eq!(midi_to_name(midi), name);
    }
}
