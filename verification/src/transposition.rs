//! Written-pitch / concert-pitch conversion: an invertible shift by the
//! instrument's chromatic transposition.

use vstd::prelude::*;
use crate::types::TransposeInfo;

verus! {

/// The widest MIDI-style pitch number the conversions accept; keeps the
/// shifted value inside `i32` with room to spare.
pub const MIDI_BOUND: i32 = 0x1000_0000;

/// Convert a concert-pitch MIDI note to written pitch for the instrument.
/// For a B-flat trumpet `chromatic == -2`, so concert Bb3 (58) is written C4 (60).
pub fn concert_to_written(midi_concert: i32, transpose: &TransposeInfo) -> (written: i32)
    requires
        -MIDI_BOUND < midi_concert < MIDI_BOUND,
        -MIDI_BOUND < transpose.chromatic < MIDI_BOUND,
    ensures
        written == midi_concert - transpose.chromatic,
{
    midi_concert - transpose.chromatic
}

/// Convert a written-pitch MIDI note to concert pitch.
/// For a B-flat trumpet written C4 (60) sounds as concert Bb3 (58).
pub fn written_to_concert(midi_written: i32, transpose: &TransposeInfo) -> (concert: i32)
    requires
        -MIDI_BOUND < midi_written < MIDI_BOUND,
        -MIDI_BOUND < transpose.chromatic < MIDI_BOUND,
    ensures
        concert == midi_written + transpose.chromatic,
{
    midi_written + transpose.chromatic
}

/// The two conversions invert each other on every pitch in range.
pub proof fn lemma_transposition_round_trip(midi: i32, chromatic: i32)
    requires
        -MIDI_BOUND < midi < MIDI_BOUND,
        -MIDI_BOUND < chromatic < MIDI_BOUND,
    ensures
        (midi + chromatic) - chromatic == midi,
        (midi - chromatic) + chromatic == midi,
{
}

} // verus!
