//! Note naming and pitch-spelling arithmetic: pitch spelling to MIDI number,
//! and MIDI number to display name.

use vstd::prelude::*;
use crate::num::{div_trunc, div_trunc_i64, spec_idec, push_idec};

verus! {

/// Semitone offset of a natural step letter within an octave; letters other
/// than A-G count as C, as the score loader does.
pub open spec fn spec_step_base(step: char) -> int {
    if step == 'D' {
        2
    } else if step == 'E' {
        4
    } else if step == 'F' {
        5
    } else if step == 'G' {
        7
    } else if step == 'A' {
        9
    } else if step == 'B' {
        11
    } else {
        0
    }
}

/// MIDI number of a spelled pitch: step letter, chromatic alteration and
/// octave, with C4 == 60. Every step of the arithmetic must stay inside
/// the 32-bit range.
pub fn midi_from_pitch(step: char, alter: i32, octave: i32) -> (midi: i32)
    requires
        -0x8000_0000 <= (octave + 1) * 12 <= 0x7fff_ffff,
        -0x8000_0000 <= (octave + 1) * 12 + spec_step_base(step) <= 0x7fff_ffff,
        -0x8000_0000 <= (octave + 1) * 12 + spec_step_base(step) + alter <= 0x7fff_ffff,
    ensures
        midi == (octave + 1) * 12 + spec_step_base(step) + alter,
{
    let base: i32 = match step {
        'C' => 0,
        'D' => 2,
        'E' => 4,
        'F' => 5,
        'G' => 7,
        'A' => 9,
        'B' => 11,
        _ => 0,
    };
    (octave + 1) * 12 + base + alter
}

/// `midi` reduced to a pitch class: the Euclidean remainder modulo twelve.
fn pitch_class(midi: i32) -> (m: u32)
    ensures
        m == (midi as int) % 12,
        m < 12,
{
    if midi >= 0 {
        (midi as u32) % 12
    } else {
        let neg: u64 = (-(midi as i64)) as u64;
        let r: u32 = (neg % 12) as u32;
        proof {
            vstd::arithmetic::div_mod::lemma_fundamental_div_mod(neg as int, 12);
            let q = neg as int / 12;
            if r == 0 {
                vstd::arithmetic::div_mod::lemma_fundamental_div_mod_converse(
                    midi as int, 12, -q, 0);
            } else {
                vstd::arithmetic::div_mod::lemma_fundamental_div_mod_converse(
                    midi as int, 12, -q - 1, 12 - r);
            }
        }
        if r == 0 {
            0
        } else {
            12 - r
        }
    }
}

/// Display letters of a pitch class, sharps for the black keys.
pub open spec fn spec_class_name(m: int) -> Seq<char> {
    if m == 0 {
        seq!['C']
    } else if m == 1 {
        seq!['C', '#']
    } else if m == 2 {
        seq!['D']
    } else if m == 3 {
        seq!['D', '#']
    } else if m == 4 {
        seq!['E']
    } else if m == 5 {
        seq!['F']
    } else if m == 6 {
        seq!['F', '#']
    } else if m == 7 {
        seq!['G']
    } else if m == 8 {
        seq!['G', '#']
    } else if m == 9 {
        seq!['A']
    } else if m == 10 {
        seq!['A', '#']
    } else {
        seq!['B']
    }
}

/// Display name of a MIDI note: pitch-class letters, then the octave number
/// (C4 == 60), the octave taken with truncating division as the trainer's
/// display always did.
pub open spec fn spec_midi_name(midi: int) -> Seq<char> {
    spec_class_name(midi % 12) + spec_idec(div_trunc(midi, 12) - 1)
}

fn push_class_name(s: &mut String, m: u32)
    requires
        m < 12,
    ensures
        final(s)@ == old(s)@ + spec_class_name(m as int),
{
    match m {
        0 => {
            proof { reveal_strlit("C"); }
            s.append("C");
        }
        1 => {
            proof { reveal_strlit("C#"); }
            s.append("C#");
        }
        2 => {
            proof { reveal_strlit("D"); }
            s.append("D");
        }
        3 => {
            proof { reveal_strlit("D#"); }
            s.append("D#");
        }
        4 => {
            proof { reveal_strlit("E"); }
            s.append("E");
        }
        5 => {
            proof { reveal_strlit("F"); }
            s.append("F");
        }
        6 => {
            proof { reveal_strlit("F#"); }
            s.append("F#");
        }
        7 => {
            proof { reveal_strlit("G"); }
            s.append("G");
        }
        8 => {
            proof { reveal_strlit("G#"); }
            s.append("G#");
        }
        9 => {
            proof { reveal_strlit("A"); }
            s.append("A");
        }
        10 => {
            proof { reveal_strlit("A#"); }
            s.append("A#");
        }
        _ => {
            proof { reveal_strlit("B"); }
            s.append("B");
        }
    }
    proof {
        assert(final(s)@ =~= old(s)@ + spec_class_name(m as int));
    }
}

/// Display name of a MIDI note, such as "C4" for 60 or "A#3" for 58.
pub fn midi_to_name(midi: i32) -> (name: String)
    ensures
        name@ == spec_midi_name(midi as int),
{
    let mut s = String::new();
    let m = pitch_class(midi);
    push_class_name(&mut s, m);
    let oct: i64 = div_trunc_i64(midi as i64, 12) - 1;
    push_idec(&mut s, oct);
    proof {
        assert(s@ =~= spec_midi_name(midi as int));
    }
    s
}

} // verus!
