//! Core of an instrument-practice trainer: a YIN pitch detector and a
//! performance analyzer that aligns detected notes against a reference score.
//!
//! All quantities are exact fixed-point integers:
//! - audio samples: `i32`, full scale 1.0 == 32768
//! - sample rates: `u32` Hz; frequencies: `u64` milli-hertz
//! - beats: `i64` milli-beats; fractional MIDI pitch: `i64` milli-midi
//! - pitch errors: `i64` milli-cents (1 cent == 1000)
//! - confidences and unit-interval scores: micro or milli units as named

pub mod analyzer;
pub mod autocorr;
pub mod generators;
pub mod intervals;
pub mod laws;
pub mod matching;
pub mod notes;
pub mod num;
pub mod pitch;
pub mod report;
pub mod stats;
pub mod technique;
pub mod transposition;
pub mod types;
