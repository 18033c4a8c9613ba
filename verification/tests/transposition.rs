use pitch_trainer::transposition::{concert_to_written, written_to_concert};
use pitch_trainer::types::TransposeInfo;

fn bb_trumpet() -> TransposeInfo {
    TransposeInfo { chromatic: -2, diatonic: -1 }
}

#[test]
fn test_concert_to_written_bb_trumpet() {
    let t = bb_trumpet();
    // Concert Bb3 (58) -> Written C4 (60)
    assert_eq!(concert_to_written(58, &t), 60);
    // Concert A4 (69) -> Written B4 (71)
    assert_eq!(concert_to_written(69, &t), 71);
}

#[test]
fn test_written_to_concert_bb_trumpet() {
    let t = bb_trumpet();
    // Written C4 (60) -> Concert Bb3 (58)
    assert_eq!(written_to_concert(60, &t), 58);
    // Written B4 (71) -> Concert A4 (69)
    assert_eq!(written_to_concert(71, &t), 69);
}

#[test]
fn test_roundtrip() {
    let t = bb_trumpet();
    for midi in 48..=84 {
        assert_eq!(concert_to_written(written_to_concert(midi, &t), &t), midi);
    }
}

#[test]
fn test_no_transposition() {
    let t = TransposeInfo { chromatic: 0, diatonic: 0 };
    assert_eq!(concert_to_written(60, &t), 60);
    assert_eq!(written_to_concert(60, &t), 60);
}
