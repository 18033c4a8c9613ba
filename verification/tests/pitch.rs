use pitch_trainer::autocorr::detect_pitch;
use pitch_trainer::pitch::detect_pitch_yin;
use std::f64::consts::PI;

/// A sine tone at `freq`, scaled to the detector's fixed point
/// (1.0 == 32768), at half amplitude.
fn generate_sine(freq: f64, sample_rate: f64, duration: f64) -> Vec<i32> {
    let n = (sample_rate * duration) as usize;
    (0..n)
        .map(|i| (0.5 * (2.0 * PI * freq * i as f64 / sample_rate).sin() * 32768.0) as i32)
        .collect()
}

#[test]
fn test_yin_a440() {
    let samples = generate_sine(440.0, 44100.0, 0.1);
    let result = detect_pitch_yin(&samples, 44100);
    assert!(result.hz_milli > 0, "Should detect pitch");
    let error = (result.hz_milli as i64 - 440_000).abs();
    assert!(error < 2000, "Expected ~440 Hz, got {} mHz (error {})", result.hz_milli, error);
    assert!(
        result.confidence_micro > 800_000,
        "Should have high confidence: {}",
        result.confidence_micro
    );
}

#[test]
fn test_yin_bb3() {
    // Bb3 = 233.08 Hz (concert pitch, common trumpet note)
    let samples = generate_sine(233.08, 44100.0, 0.1);
    let result = detect_pitch_yin(&samples, 44100);
    let error = (result.hz_milli as i64 - 233_080).abs();
    assert!(error < 2000, "Expected ~233 Hz, got {} mHz (error {})", result.hz_milli, error);
}

#[test]
fn test_yin_c6() {
    // C6 = 1046.5 Hz (high range): fewer samples per period, wider tolerance.
    let samples = generate_sine(1046.5, 44100.0, 0.1);
    let result = detect_pitch_yin(&samples, 44100);
    let error = (result.hz_milli as i64 - 1_046_500).abs();
    assert!(error < 10_000, "Expected ~1047 Hz, got {} mHz (error {})", result.hz_milli, error);
}

#[test]
fn test_yin_silence() {
    let samples = vec![0i32; 4410];
    let result = detect_pitch_yin(&samples, 44100);
    assert_eq!(result.hz_milli, 0);
    assert_eq!(result.confidence_micro, 0);
}

#[test]
fn test_yin_empty() {
    let result = detect_pitch_yin(&[], 44100);
    assert_eq!(result.hz_milli, 0);
}

#[test]
fn test_yin_quiet_noise_is_silence() {
    // Well below the 0.02 RMS floor: reads as silence, not as a pitch.
    let samples: Vec<i32> = (0..4410).map(|i| if i % 2 == 0 { 300 } else { -300 }).collect();
    let result = detect_pitch_yin(&samples, 44100);
    assert_eq!(result.hz_milli, 0);
    assert_eq!(result.confidence_micro, 0);
}

#[test]
fn test_autocorr_a440() {
    // Integer-lag resolution near 440 Hz at 44.1 kHz is 441 Hz (lag 100).
    let samples = generate_sine(440.0, 44100.0, 0.1);
    let hz_milli = detect_pitch(&samples, 44100);
    let error = (hz_milli as i64 - 440_000).abs();
    assert!(error < 5000, "Expected ~440 Hz, got {} mHz (error {})", hz_milli, error);
}

#[test]
fn test_autocorr_silence() {
    let samples = vec![0i32; 4410];
    assert_eq!(detect_pitch(&samples, 44100), 0);
    assert_eq!(detect_pitch(&[], 44100), 0);
}

#[test]
fn test_yin_octave_robustness() {
    // A fundamental with harmonics: YIN still finds the fundamental.
    let n = 4410;
    let sample_rate = 44100.0;
    let fundamental = 440.0;
    let samples: Vec<i32> = (0..n)
        .map(|i| {
            let t = i as f64 / sample_rate;
            let v = 0.5 * (2.0 * PI * fundamental * t).sin()
                + 0.3 * (2.0 * PI * 2.0 * fundamental * t).sin()
                + 0.1 * (2.0 * PI * 3.0 * fundamental * t).sin();
            (v * 32768.0) as i32
        })
        .collect();
    let result = detect_pitch_yin(&samples, 44100);
    let error = (result.hz_milli as i64 - 440_000).abs();
    assert!(
        error < 5000,
        "Should detect fundamental 440 Hz despite harmonics, got {} mHz (error {})",
        result.hz_milli,
        error
    );
}
