//! Synthetic practice exercises: a key name parsed to a root pitch, and
//! six note-pattern builders that construct a score from it.

use vstd::prelude::*;
use crate::notes::{midi_from_pitch, spec_step_base};
use crate::num::{digit_char, spec_udec};
use crate::types::{MeasureInfo, NoteEvent, NoteType, Score};

verus! {

/// Whitespace as the standard library's trimming defines it: the Unicode
/// white-space code points.
pub open spec fn is_space(c: char) -> bool {
    ||| c == ' ' || c == '\t' || c == '\n' || c == '\r'
    ||| c == '\u{0B}' || c == '\u{0C}' || c == '\u{85}' || c == '\u{A0}'
    ||| c == '\u{1680}' || ('\u{2000}' <= c && c <= '\u{200A}')
    ||| c == '\u{2028}' || c == '\u{2029}' || c == '\u{202F}' || c == '\u{205F}'
    ||| c == '\u{3000}'
}

/// The sequence with its leading whitespace removed.
pub open spec fn trim_start(s: Seq<char>) -> Seq<char>
    decreases s.len(),
{
    if s.len() > 0 && is_space(s[0]) {
        trim_start(s.drop_first())
    } else {
        s
    }
}

/// The sequence with its trailing whitespace removed.
pub open spec fn trim_end(s: Seq<char>) -> Seq<char>
    decreases s.len(),
{
    if s.len() > 0 && is_space(s.last()) {
        trim_end(s.drop_last())
    } else {
        s
    }
}

/// The sequence with surrounding whitespace removed.
pub open spec fn spec_trim(s: Seq<char>) -> Seq<char> {
    trim_end(trim_start(s))
}

/// A span of leading spaces strips to the suffix after it.
proof fn lemma_trim_start_skip(s: Seq<char>, f: int)
    requires
        0 <= f <= s.len(),
        forall|i: int| 0 <= i < f ==> is_space(#[trigger] s[i]),
        f < s.len() ==> !is_space(s[f]),
    ensures
        trim_start(s) == s.skip(f),
    decreases f,
{
    if f == 0 {
        assert(s.skip(0) =~= s);
    } else {
        assert(s.drop_first() =~= s.skip(1));
        assert(forall|i: int| 0 <= i < f - 1 ==> is_space(#[trigger] s.skip(1)[i]));
        lemma_trim_start_skip(s.skip(1), f - 1);
        assert(s.skip(1).skip(f - 1) =~= s.skip(f));
    }
}

/// A span of trailing spaces strips to the prefix before it.
proof fn lemma_trim_end_take(s: Seq<char>, l: int)
    requires
        0 <= l <= s.len(),
        forall|i: int| l <= i < s.len() ==> is_space(#[trigger] s[i]),
        l > 0 ==> !is_space(s[l - 1]),
    ensures
        trim_end(s) == s.take(l),
    decreases s.len() - l,
{
    if l == s.len() {
        assert(s.take(l) =~= s);
    } else {
        assert(s.drop_last() =~= s.take(s.len() - 1));
        assert(forall|i: int| l <= i < s.take(s.len() - 1).len()
            ==> is_space(#[trigger] s.take(s.len() - 1)[i]));
        lemma_trim_end_take(s.take(s.len() - 1), l);
        assert(s.take(s.len() - 1).take(l) =~= s.take(l));
    }
}

/// Decimal digit?
pub open spec fn is_digit(c: char) -> bool {
    '0' <= c && c <= '9'
}

/// Numeric value of a decimal digit character.
pub open spec fn digit_val(c: char) -> int {
    c as int - '0' as int
}

/// Value of a digit string, most significant first.
pub open spec fn digits_value(s: Seq<char>) -> int
    decreases s.len(),
{
    if s.len() == 0 {
        0
    } else {
        digits_value(s.drop_last()) * 10 + digit_val(s.last())
    }
}

/// A digit string's value is never negative.
pub proof fn lemma_digits_value_nonneg(s: Seq<char>)
    requires
        forall|i: int| 0 <= i < s.len() ==> is_digit(#[trigger] s[i]),
    ensures
        digits_value(s) >= 0,
    decreases s.len(),
{
    if s.len() > 0 {
        assert(forall|i: int| 0 <= i < s.drop_last().len()
            ==> is_digit(#[trigger] s.drop_last()[i]));
        lemma_digits_value_nonneg(s.drop_last());
    }
}

/// Every character a decimal digit?
pub open spec fn all_digits(s: Seq<char>) -> bool {
    forall|i: int| 0 <= i < s.len() ==> is_digit(#[trigger] s[i])
}

/// The octave suffix of a key name: empty means the default fourth octave;
/// otherwise an optional sign and digits, exactly as a 32-bit integer
/// parses (leading zeros allowed, values beyond the 32-bit range refused).
pub open spec fn spec_parse_octave(s: Seq<char>) -> Option<int> {
    if s.len() == 0 {
        Some(4int)
    } else {
        let neg = s[0] == '-';
        let signed = neg || s[0] == '+';
        let ds = if signed {
            s.drop_first()
        } else {
            s
        };
        if ds.len() >= 1 && all_digits(ds) {
            let v = if neg {
                -digits_value(ds)
            } else {
                digits_value(ds)
            };
            if -0x8000_0000 <= v <= 0x7fff_ffff {
                Some(v)
            } else {
                None
            }
        } else {
            None
        }
    }
}

/// A suffix holding any non-digit after the optional sign never parses.
proof fn lemma_parse_octave_nondigit(rest: Seq<char>, sk: int)
    requires
        rest.len() >= 1,
        ({
            let ds = if rest[0] == '-' || rest[0] == '+' {
                rest.drop_first()
            } else {
                rest
            };
            0 <= sk < ds.len() && !is_digit(ds[sk])
        }),
    ensures
        spec_parse_octave(rest) is None,
{
    let neg = rest[0] == '-';
    let signed = neg || rest[0] == '+';
    let ds = if signed {
        rest.drop_first()
    } else {
        rest
    };
    assert(!is_digit(ds[sk]));
    assert(!all_digits(ds));
}

/// A key name parsed to a MIDI root: a step letter, an optional `#` or `b`,
/// and an octave, surrounding white space ignored. `None` when the trimmed
/// name is empty, the octave does not parse as a 32-bit integer, or any
/// step of the pitch arithmetic `(octave + 1) * 12 + base + alter` would
/// leave the 32-bit range.
pub open spec fn spec_key_to_midi(raw: Seq<char>) -> Option<int> {
    let t = spec_trim(raw);
    if t.len() == 0 {
        None
    } else {
        let base = spec_step_base(t[0]);
        let sharp = t.len() >= 2 && t[1] == '#';
        let flat = t.len() >= 2 && t[1] == 'b';
        let alter: int = if sharp {
            1
        } else if flat {
            -1
        } else {
            0
        };
        let rest = if sharp || flat {
            t.skip(2)
        } else {
            t.skip(1)
        };
        match spec_parse_octave(rest) {
            Option::Some(o) => {
                let twelfths = (o + 1) * 12;
                let with_base = twelfths + base;
                let midi = with_base + alter;
                if -0x8000_0000 <= twelfths <= 0x7fff_ffff
                    && -0x8000_0000 <= with_base <= 0x7fff_ffff
                    && -0x8000_0000 <= midi <= 0x7fff_ffff {
                    Some(midi)
                } else {
                    None
                }
            }
            Option::None => None,
        }
    }
}

/// Parse a key name such as "C4", "Bb3" or "F#4" to its MIDI root
/// (C4 == 60); the octave defaults to 4 when omitted. Unparsable keys give
/// the trainer's error message: one line for a blank key, one naming the
/// offending key otherwise.
#[verifier::rlimit(100)]
pub fn key_to_midi(key: &str) -> (r: Result<i32, String>)
    ensures
        match r {
            Result::Ok(m) => spec_key_to_midi(key@) == Some(m as int),
            Result::Err(msg) => spec_key_to_midi(key@) is None && (if spec_trim(key@).len()
                == 0 {
                msg@ == "Empty key"@
            } else {
                msg@ == "Invalid octave in key: "@ + spec_trim(key@)
            }),
        },
{
    let n: usize = key.unicode_len();
    let mut f: usize = 0;
    while f < n && is_space_char(key.get_char(f))
        invariant
            f <= n,
            n == key@.len(),
            forall|i: int| 0 <= i < f ==> is_space(#[trigger] key@[i]),
        decreases n - f,
    {
        f = f + 1;
    }
    let mut l: usize = n;
    while l > f && is_space_char(key.get_char(l - 1))
        invariant
            f <= l <= n,
            n == key@.len(),
            forall|i: int| 0 <= i < f ==> is_space(#[trigger] key@[i]),
            forall|i: int| l <= i < n ==> is_space(#[trigger] key@[i]),
        decreases l,
    {
        l = l - 1;
    }
    proof {
        lemma_trim_start_skip(key@, f as int);
        if l == f {
            assert(forall|i: int| 0 <= i < key@.skip(f as int).len()
                ==> is_space(#[trigger] key@.skip(f as int)[i]));
            lemma_trim_end_take(key@.skip(f as int), 0);
            assert(spec_trim(key@) =~= Seq::<char>::empty());
        } else {
            assert(forall|i: int| l - f <= i < key@.skip(f as int).len()
                ==> is_space(#[trigger] key@.skip(f as int)[i]));
            assert(!is_space(key@.skip(f as int)[l - f - 1]));
            lemma_trim_end_take(key@.skip(f as int), l as int - f as int);
        }
    }
    let ghost t = spec_trim(key@);
    if l == f {
        proof {
            reveal_strlit("Empty key");
        }
        return Err("Empty key".to_owned());
    }
    proof {
        assert(t =~= key@.subrange(f as int, l as int));
        assert(t.len() == l - f);
    }
    let step: char = key.get_char(f);
    proof {
        assert(step == t[0]);
    }
    let mut alter: i32 = 0;
    let mut rest_start: usize = f + 1;
    if l - f >= 2 {
        let acc: char = key.get_char(f + 1);
        proof {
            assert(acc == t[1]);
        }
        if acc == '#' {
            alter = 1;
            rest_start = f + 2;
        } else if acc == 'b' {
            alter = -1;
            rest_start = f + 2;
        }
    }
    let ghost rest = if alter == 0 {
        t.skip(1)
    } else {
        t.skip(2)
    };
    proof {
        assert(rest =~= key@.subrange(rest_start as int, l as int));
    }

    // Parse the octave suffix, exactly as a 32-bit integer parses: an
    // optional sign, then any run of digits, the value kept only while it
    // could still fit.
    let octave: i64;
    if rest_start == l {
        octave = 4;
    } else {
        let c0: char = key.get_char(rest_start);
        proof {
            assert(c0 == rest[0]);
        }
        let neg: bool = c0 == '-';
        let signed: bool = neg || c0 == '+';
        let ds_start: usize = if signed {
            rest_start + 1
        } else {
            rest_start
        };
        let ghost ds = if signed {
            rest.drop_first()
        } else {
            rest
        };
        proof {
            assert(ds =~= key@.subrange(ds_start as int, l as int));
        }
        let count: usize = l - ds_start;
        if count == 0 {
            return Err(bad_key_message(key, f, l));
        }
        let mut acc: u64 = 0;
        let mut over: bool = false;
        let mut ok: bool = true;
        let mut i: usize = ds_start;
        proof {
            assert(ds.take(0) =~= Seq::<char>::empty());
        }
        while i < l
            invariant
                ds_start <= i <= l,
                l <= n,
                n == key@.len(),
                ds == key@.subrange(ds_start as int, l as int),
                ds.len() == l - ds_start,
                ok ==> forall|q: int| 0 <= q < i - ds_start ==> is_digit(#[trigger] ds[q]),
                ok && !over ==> acc == digits_value(ds.take(i - ds_start))
                    && acc <= 0x8000_0000,
                ok && over ==> digits_value(ds.take(i - ds_start)) > 0x8000_0000
                    && acc == 0x8000_0001,
                !ok ==> exists|q: int| 0 <= q < ds.len() && !is_digit(#[trigger] ds[q]),
            decreases l - i,
        {
            let c: char = key.get_char(i);
            proof {
                assert(c == ds[i - ds_start]);
            }
            if ok {
                if '0' <= c && c <= '9' {
                    let d: u64 = (c as u64) - ('0' as u64);
                    proof {
                        assert(d == digit_val(c));
                        assert(digit_val(ds[i - ds_start]) >= 0);
                        assert(ds.take(i - ds_start + 1).drop_last()
                            =~= ds.take(i - ds_start));
                        assert(ds.take(i - ds_start + 1).last() == ds[i - ds_start]);
                    }
                    if !over {
                        acc = acc * 10 + d;
                        if acc > 0x8000_0000 {
                            over = true;
                            acc = 0x8000_0001;
                        }
                    } else {
                        proof {
                            let old_v = digits_value(ds.take(i - ds_start));
                            assert(digits_value(ds.take(i - ds_start + 1))
                                == old_v * 10 + digit_val(ds[i - ds_start]));
                            assert(old_v * 10 >= old_v);
                        }
                    }
                } else {
                    ok = false;
                    proof {
                        assert(!is_digit(ds[i - ds_start]));
                    }
                }
            }
            i = i + 1;
        }
        if !ok {
            proof {
                let spec_ds = if rest[0] == '-' || rest[0] == '+' {
                    rest.drop_first()
                } else {
                    rest
                };
                assert(spec_ds == ds);
                let sk = choose|q: int| 0 <= q < ds.len() && !is_digit(#[trigger] ds[q]);
                assert(0 <= sk < ds.len() && !is_digit(ds[sk]));
                assert(spec_ds[sk] == ds[sk]);
                lemma_parse_octave_nondigit(rest, sk);
                assert(spec_key_to_midi(key@) is None);
            }
            return Err(bad_key_message(key, f, l));
        }
        proof {
            assert(ds.take(ds.len() as int) =~= ds);
            assert(all_digits(ds));
        }
        // A magnitude beyond the 32-bit range cannot be an octave.
        if over || (!neg && acc > 0x7fff_ffff) {
            proof {
                assert(spec_parse_octave(rest) is None);
                assert(spec_key_to_midi(key@) is None);
            }
            return Err(bad_key_message(key, f, l));
        }
        octave = if neg {
            -(acc as i64)
        } else {
            acc as i64
        };
        proof {
            assert(spec_parse_octave(rest) == Some(octave as int));
        }
    }
    // The spelled-pitch arithmetic, step by step in 64 bits; the key is
    // refused exactly where the 32-bit arithmetic would leave its range.
    let twelfths: i64 = (octave + 1) * 12;
    let with_base: i64 = twelfths + (step_base_of(step) as i64);
    let midi: i64 = with_base + (alter as i64);
    if twelfths < -0x8000_0000 || twelfths > 0x7fff_ffff || with_base < -0x8000_0000
        || with_base > 0x7fff_ffff || midi < -0x8000_0000 || midi > 0x7fff_ffff {
        return Err(bad_key_message(key, f, l));
    }
    Ok(midi as i32)
}

/// The trainer's message for a key it cannot parse, naming the trimmed key.
fn bad_key_message(key: &str, f: usize, l: usize) -> (msg: String)
    requires
        f <= l <= key@.len(),
    ensures
        msg@ == "Invalid octave in key: "@ + key@.subrange(f as int, l as int),
{
    let mut msg = String::new();
    msg.append("Invalid octave in key: ");
    msg.append(key.substring_char(f, l));
    msg
}

/// Semitone offset of a step letter, as an executable table.
fn step_base_of(step: char) -> (base: i32)
    ensures
        base == spec_step_base(step),
{
    match step {
        'C' => 0,
        'D' => 2,
        'E' => 4,
        'F' => 5,
        'G' => 7,
        'A' => 9,
        'B' => 11,
        _ => 0,
    }
}

/// Whitespace test on one character.
fn is_space_char(c: char) -> (r: bool)
    ensures
        r == is_space(c),
{
    c == ' ' || c == '\t' || c == '\n' || c == '\r' || c == '\u{0B}' || c == '\u{0C}'
        || c == '\u{85}' || c == '\u{A0}' || c == '\u{1680}'
        || ('\u{2000}' <= c && c <= '\u{200A}') || c == '\u{2028}' || c == '\u{2029}'
        || c == '\u{202F}' || c == '\u{205F}' || c == '\u{3000}'
}

/// Notation label for a duration in milli-beats: whole, half or quarter.
pub open spec fn spec_note_type(dur: int) -> NoteType {
    if dur == 4000 {
        NoteType::Whole
    } else if dur == 2000 {
        NoteType::Half
    } else {
        NoteType::Quarter
    }
}

/// A played note of an exercise.
pub open spec fn spec_note(beat: int, dur: int, midi: int, measure: int) -> NoteEvent {
    NoteEvent {
        start_beat_milli: beat as i64,
        duration_beats_milli: dur as i64,
        midi: midi as i32,
        is_rest: false,
        measure_number: measure as u32,
        note_type: spec_note_type(dur),
    }
}

/// A rest of an exercise.
pub open spec fn spec_rest(beat: int, dur: int, measure: int) -> NoteEvent {
    NoteEvent {
        start_beat_milli: beat as i64,
        duration_beats_milli: dur as i64,
        midi: (-1) as i32,
        is_rest: true,
        measure_number: measure as u32,
        note_type: NoteType::Quarter,
    }
}

/// Long tones: a whole note per measure, chromatic up an octave and back.
pub open spec fn spec_long_tones(root: int) -> Seq<NoteEvent> {
    Seq::new(
        25,
        |k: int| spec_note(
            4000 * k,
            4000,
            if k <= 12 {
                root + k
            } else {
                root + 24 - k
            },
            k + 1,
        ),
    )
}

/// Scale steps of a major scale, an octave up.
pub open spec fn major_interval(j: int) -> int {
    if j <= 0 {
        0
    } else if j == 1 {
        2
    } else if j == 2 {
        4
    } else if j == 3 {
        5
    } else if j == 4 {
        7
    } else if j == 5 {
        9
    } else if j == 6 {
        11
    } else {
        12
    }
}

/// A major scale in quarter notes, up and down, closing on a whole-note
/// root.
pub open spec fn spec_major_scale(root: int) -> Seq<NoteEvent> {
    Seq::new(
        16,
        |k: int| spec_note(
            1000 * k,
            if k == 15 {
                4000int
            } else {
                1000int
            },
            if k <= 7 {
                root + major_interval(k)
            } else if k <= 14 {
                root + major_interval(14 - k)
            } else {
                root
            },
            k / 4 + 1,
        ),
    )
}

/// A chromatic octave in quarter notes, up and down, closing on a half-note
/// root.
pub open spec fn spec_chromatic(root: int) -> Seq<NoteEvent> {
    Seq::new(
        26,
        |k: int| spec_note(
            1000 * k,
            if k == 25 {
                2000int
            } else {
                1000int
            },
            if k <= 12 {
                root + k
            } else if k <= 24 {
                root + 24 - k
            } else {
                root
            },
            k / 4 + 1,
        ),
    )
}

/// Offset of the k-th lip-slur item; `None` is the rest between patterns.
pub open spec fn slur_offset(k: int) -> Option<int> {
    if k == 0 || k == 5 || k == 15 || k == 19 {
        Some(0int)
    } else if k == 1 || k == 3 || k == 16 || k == 18 {
        Some(7int)
    } else if k == 2 || k == 6 || k == 8 || k == 17 {
        Some(12int)
    } else if k == 7 {
        Some(0int)
    } else if k == 10 {
        Some(2int)
    } else if k == 11 || k == 13 {
        Some(9int)
    } else if k == 12 {
        Some(14int)
    } else {
        None
    }
}

/// Lip slurs: harmonic patterns in quarter notes, a rest between patterns.
pub open spec fn spec_lip_slurs(root: int) -> Seq<NoteEvent> {
    Seq::new(
        21,
        |k: int| match slur_offset(k) {
            Option::Some(o) => spec_note(1000 * k, 1000, root + o, k / 4 + 1),
            Option::None => spec_rest(1000 * k, 1000, k / 4 + 1),
        },
    )
}

/// The practiced interval sizes: thirds, a fourth, a fifth and the octave.
pub open spec fn interval_size(j: int) -> int {
    if j <= 0 {
        3
    } else if j == 1 {
        4
    } else if j == 2 {
        5
    } else if j == 3 {
        7
    } else {
        12
    }
}

/// Interval drills: each size played up then down, in quarter notes.
pub open spec fn spec_intervals(root: int) -> Seq<NoteEvent> {
    Seq::new(
        20,
        |k: int| spec_note(
            1000 * k,
            1000,
            if k % 4 == 1 || k % 4 == 2 {
                root + interval_size(k / 4)
            } else {
                root
            },
            k / 4 + 1,
        ),
    )
}

/// Offset of the k-th arpeggio item; `None` is the rest between patterns.
pub open spec fn arp_offset(k: int) -> Option<int> {
    if k == 0 || k == 6 || k == 8 || k == 14 {
        Some(0int)
    } else if k == 1 || k == 5 {
        Some(4int)
    } else if k == 2 || k == 4 || k == 10 || k == 12 {
        Some(7int)
    } else if k == 3 || k == 11 {
        Some(12int)
    } else if k == 9 || k == 13 {
        Some(3int)
    } else {
        None
    }
}

/// Major then minor arpeggios, up and down, a rest between patterns.
pub open spec fn spec_arpeggios(root: int) -> Seq<NoteEvent> {
    Seq::new(
        16,
        |k: int| match arp_offset(k) {
            Option::Some(o) => spec_note(1000 * k, 1000, root + o, k / 4 + 1),
            Option::None => spec_rest(1000 * k, 1000, k / 4 + 1),
        },
    )
}

/// End of the piece: the furthest note end, never negative.
pub open spec fn spec_total_beats(notes: Seq<NoteEvent>) -> int
    decreases notes.len(),
{
    if notes.len() == 0 {
        0
    } else {
        let rest = spec_total_beats(notes.drop_last());
        let end_ = notes.last().start_beat_milli + notes.last().duration_beats_milli;
        if end_ > rest {
            end_
        } else {
            rest
        }
    }
}

/// Four-four measure bookkeeping covering `total` milli-beats.
pub open spec fn spec_measures(total: int) -> Seq<MeasureInfo>
    recommends
        total >= 0,
{
    Seq::new(
        ((total + 3999) / 4000) as nat,
        |i: int| MeasureInfo {
            number: (i + 1) as u32,
            start_beat_milli: (4000 * i) as i64,
            duration_beats_milli: 4000,
            time_sig_num: 4,
            time_sig_den: 4,
        },
    )
}

/// The farthest semitone offset above the root a named exercise reaches;
/// `None` for unknown names.
pub open spec fn builder_headroom(kind: Seq<char>) -> Option<int> {
    if kind == "lip_slurs"@ {
        Some(14int)
    } else if kind == "long_tones"@ || kind == "major_scale"@ || kind == "chromatic"@
        || kind == "intervals"@ || kind == "arpeggios"@ {
        Some(12int)
    } else {
        None
    }
}

/// The note list of a named exercise, or `None` for an unknown name.
pub open spec fn spec_exercise(kind: Seq<char>, root: int) -> Option<Seq<NoteEvent>> {
    if kind == "long_tones"@ {
        Some(spec_long_tones(root))
    } else if kind == "major_scale"@ {
        Some(spec_major_scale(root))
    } else if kind == "chromatic"@ {
        Some(spec_chromatic(root))
    } else if kind == "lip_slurs"@ {
        Some(spec_lip_slurs(root))
    } else if kind == "intervals"@ {
        Some(spec_intervals(root))
    } else if kind == "arpeggios"@ {
        Some(spec_arpeggios(root))
    } else {
        None
    }
}

/// What `build_score` promises of the assembled score.
pub open spec fn score_built(score: Score, notes: Seq<NoteEvent>, tempo_milli: u64) -> bool {
    &&& score.notes@ == notes
    &&& score.tempo_milli == tempo_milli
    &&& score.total_beats_milli == spec_total_beats(notes)
    &&& score.measures@ == spec_measures(spec_total_beats(notes))
    &&& score.key_fifths == 0
    &&& score.transpose is None
    &&& score.title is None
}

/// Character-by-character string equality.
fn str_eq(a: &str, b: &str) -> (r: bool)
    ensures
        r == (a@ == b@),
{
    let na: usize = a.unicode_len();
    let nb: usize = b.unicode_len();
    if na != nb {
        return false;
    }
    let mut i: usize = 0;
    while i < na
        invariant
            i <= na,
            na == a@.len(),
            na == b@.len(),
            forall|q: int| 0 <= q < i ==> a@[q] == b@[q],
        decreases na - i,
    {
        if a.get_char(i) != b.get_char(i) {
            return false;
        }
        i = i + 1;
    }
    proof {
        assert(a@ =~= b@);
    }
    true
}

/// A note of the given duration, never a rest.
fn make_note(start_beat_milli: i64, duration_beats_milli: i64, midi: i32, measure: u32)
    -> (note: NoteEvent)
    requires
        duration_beats_milli >= 0,
    ensures
        note == spec_note(
            start_beat_milli as int,
            duration_beats_milli as int,
            midi as int,
            measure as int,
        ),
{
    let note_type = if duration_beats_milli == 4000 {
        NoteType::Whole
    } else if duration_beats_milli == 2000 {
        NoteType::Half
    } else {
        NoteType::Quarter
    };
    NoteEvent {
        start_beat_milli,
        duration_beats_milli,
        midi,
        is_rest: false,
        measure_number: measure,
        note_type,
    }
}

/// A rest of the given duration.
fn make_rest(start_beat_milli: i64, duration_beats_milli: i64, measure: u32)
    -> (note: NoteEvent)
    ensures
        note == spec_rest(
            start_beat_milli as int,
            duration_beats_milli as int,
            measure as int,
        ),
{
    NoteEvent {
        start_beat_milli,
        duration_beats_milli,
        midi: -1,
        is_rest: true,
        measure_number: measure,
        note_type: NoteType::Quarter,
    }
}

/// A score around a finished note list: total length and four-four
/// measure bookkeeping.
fn build_score(notes: Vec<NoteEvent>, tempo_milli: u64) -> (score: Score)
    requires
        notes@.len() <= crate::types::LIST_LIMIT,
        forall|i: int| 0 <= i < notes@.len() ==> {
            &&& -1_000_000_000 <= (#[trigger] notes@[i]).start_beat_milli <= 1_000_000_000
            &&& -1_000_000_000 <= notes@[i].duration_beats_milli <= 1_000_000_000
        },
    ensures
        score_built(score, notes@, tempo_milli),
{
    let ghost ns = notes@;
    let mut total: i64 = 0;
    let mut i: usize = 0;
    while i < notes.len()
        invariant
            i <= ns.len(),
            ns == notes@,
            forall|q: int| 0 <= q < ns.len() ==> {
                &&& -1_000_000_000 <= (#[trigger] ns[q]).start_beat_milli <= 1_000_000_000
                &&& -1_000_000_000 <= ns[q].duration_beats_milli <= 1_000_000_000
            },
            total == spec_total_beats(ns.take(i as int)),
            0 <= total <= 2_000_000_000,
        decreases ns.len() - i,
    {
        proof {
            assert(ns.take(i + 1).drop_last() =~= ns.take(i as int));
            assert(ns.take(i + 1).last() == ns[i as int]);
        }
        let end_: i64 = notes[i].start_beat_milli + notes[i].duration_beats_milli;
        if end_ > total {
            total = end_;
        }
        i = i + 1;
    }
    proof {
        assert(ns.take(ns.len() as int) =~= ns);
    }
    let num_measures: u64 = ((total as u64) + 3999) / 4000;
    let mut measures: Vec<MeasureInfo> = Vec::new();
    let mut m: u64 = 0;
    while m < num_measures
        invariant
            m <= num_measures,
            num_measures == (spec_total_beats(ns) + 3999) / 4000,
            0 <= spec_total_beats(ns) <= 2_000_000_000,
            measures@ =~= spec_measures(spec_total_beats(ns)).take(m as int),
        decreases num_measures - m,
    {
        measures.push(MeasureInfo {
            number: (m + 1) as u32,
            start_beat_milli: (m as i64) * 4000,
            duration_beats_milli: 4000,
            time_sig_num: 4,
            time_sig_den: 4,
        });
        proof {
            assert(measures@ =~= spec_measures(spec_total_beats(ns)).take(m as int + 1));
        }
        m = m + 1;
    }
    proof {
        let sm = spec_measures(spec_total_beats(ns));
        assert(sm.take(sm.len() as int) =~= sm);
    }
    Score {
        tempo_milli,
        notes,
        measures,
        key_fifths: 0,
        transpose: None,
        title: None,
        total_beats_milli: total,
    }
}

/// Generate a named practice exercise in the given key and tempo:
/// long tones, a major scale, a chromatic scale, lip slurs, interval
/// drills or arpeggios. An unknown name or an unparsable key gives the
/// trainer's error message. A known exercise needs its root far enough
/// below the top of the 32-bit pitch space for the builder's offsets.
pub fn generate(exercise_type: &str, key: &str, tempo_milli: u64) -> (r: Result<Score, String>)
    requires
        match (builder_headroom(exercise_type@), spec_key_to_midi(key@)) {
            (Option::Some(h), Option::Some(root)) => root + h <= 0x7fff_ffff,
            _ => true,
        },
    ensures
        match r {
            Result::Ok(score) => {
                &&& spec_key_to_midi(key@) is Some
                &&& spec_exercise(exercise_type@, spec_key_to_midi(key@)->Some_0) is Some
                &&& score_built(
                    score,
                    spec_exercise(exercise_type@, spec_key_to_midi(key@)->Some_0)->Some_0,
                    tempo_milli,
                )
            }
            Result::Err(msg) => {
                ||| (spec_key_to_midi(key@) is None && (if spec_trim(key@).len() == 0 {
                    msg@ == "Empty key"@
                } else {
                    msg@ == "Invalid octave in key: "@ + spec_trim(key@)
                }))
                ||| (spec_key_to_midi(key@) is Some && spec_exercise(
                    exercise_type@,
                    spec_key_to_midi(key@)->Some_0,
                ) is None && msg@ == "Unknown exercise type: "@ + exercise_type@)
            }
        },
{
    let root_midi: i32 = match key_to_midi(key) {
        Result::Ok(m) => m,
        Result::Err(e) => {
            return Err(e);
        }
    };
    if str_eq(exercise_type, "long_tones") {
        Ok(generate_long_tones(root_midi, tempo_milli))
    } else if str_eq(exercise_type, "major_scale") {
        Ok(generate_major_scale(root_midi, tempo_milli))
    } else if str_eq(exercise_type, "chromatic") {
        Ok(generate_chromatic(root_midi, tempo_milli))
    } else if str_eq(exercise_type, "lip_slurs") {
        Ok(generate_lip_slurs(root_midi, tempo_milli))
    } else if str_eq(exercise_type, "intervals") {
        Ok(generate_intervals(root_midi, tempo_milli))
    } else if str_eq(exercise_type, "arpeggios") {
        Ok(generate_arpeggios(root_midi, tempo_milli))
    } else {
        proof {
            reveal_strlit("Unknown exercise type: ");
        }
        let mut msg = String::new();
        msg.append("Unknown exercise type: ");
        msg.append(exercise_type);
        Err(msg)
    }
}

/// Long tones from the root: whole notes up the chromatic octave and back.
fn generate_long_tones(root_midi: i32, tempo_milli: u64) -> (score: Score)
    requires
        root_midi + 12 <= 0x7fff_ffff,
    ensures
        score_built(score, spec_long_tones(root_midi as int), tempo_milli),
{
    let ghost model = spec_long_tones(root_midi as int);
    let mut notes: Vec<NoteEvent> = Vec::new();
    let mut k: usize = 0;
    while k < 25
        invariant
            k <= 25,
            root_midi + 12 <= 0x7fff_ffff,
            model == spec_long_tones(root_midi as int),
            notes@ =~= model.take(k as int),
        decreases 25 - k,
    {
        let midi: i32 = if k <= 12 {
            root_midi + (k as i32)
        } else {
            root_midi + (24 - (k as i32))
        };
        notes.push(make_note((k as i64) * 4000, 4000, midi, (k as u32) + 1));
        proof {
            assert(notes@ =~= model.take(k as int + 1));
        }
        k = k + 1;
    }
    proof {
        assert(model.take(25) =~= model);
    }
    build_score(notes, tempo_milli)
}

/// The major scale from the root, up and down, closing on a whole note.
fn generate_major_scale(root_midi: i32, tempo_milli: u64) -> (score: Score)
    requires
        root_midi + 12 <= 0x7fff_ffff,
    ensures
        score_built(score, spec_major_scale(root_midi as int), tempo_milli),
{
    let ghost model = spec_major_scale(root_midi as int);
    let mut notes: Vec<NoteEvent> = Vec::new();
    let mut k: usize = 0;
    while k < 16
        invariant
            k <= 16,
            root_midi + 12 <= 0x7fff_ffff,
            model == spec_major_scale(root_midi as int),
            notes@ =~= model.take(k as int),
        decreases 16 - k,
    {
        let off: i32 = if k <= 7 {
            major_interval_of(k as i32)
        } else if k <= 14 {
            major_interval_of(14 - (k as i32))
        } else {
            0
        };
        let dur: i64 = if k == 15 {
            4000
        } else {
            1000
        };
        notes.push(make_note(
            (k as i64) * 1000, dur, root_midi + off, (k as u32) / 4 + 1));
        proof {
            assert(notes@ =~= model.take(k as int + 1));
        }
        k = k + 1;
    }
    proof {
        assert(model.take(16) =~= model);
    }
    build_score(notes, tempo_milli)
}

/// Scale-step table of the major scale.
fn major_interval_of(j: i32) -> (v: i32)
    ensures
        v == major_interval(j as int),
{
    if j <= 0 {
        0
    } else if j == 1 {
        2
    } else if j == 2 {
        4
    } else if j == 3 {
        5
    } else if j == 4 {
        7
    } else if j == 5 {
        9
    } else if j == 6 {
        11
    } else {
        12
    }
}

/// The chromatic octave from the root, up and down, closing on a half note.
fn generate_chromatic(root_midi: i32, tempo_milli: u64) -> (score: Score)
    requires
        root_midi + 12 <= 0x7fff_ffff,
    ensures
        score_built(score, spec_chromatic(root_midi as int), tempo_milli),
{
    let ghost model = spec_chromatic(root_midi as int);
    let mut notes: Vec<NoteEvent> = Vec::new();
    let mut k: usize = 0;
    while k < 26
        invariant
            k <= 26,
            root_midi + 12 <= 0x7fff_ffff,
            model == spec_chromatic(root_midi as int),
            notes@ =~= model.take(k as int),
        decreases 26 - k,
    {
        let off: i32 = if k <= 12 {
            k as i32
        } else if k <= 24 {
            24 - (k as i32)
        } else {
            0
        };
        let dur: i64 = if k == 25 {
            2000
        } else {
            1000
        };
        notes.push(make_note(
            (k as i64) * 1000, dur, root_midi + off, (k as u32) / 4 + 1));
        proof {
            assert(notes@ =~= model.take(k as int + 1));
        }
        k = k + 1;
    }
    proof {
        assert(model.take(26) =~= model);
    }
    build_score(notes, tempo_milli)
}

/// Lip-slur table entry, rests encoded as `None`.
fn slur_offset_of(k: usize) -> (v: Option<i32>)
    ensures
        match v {
            Option::Some(o) => slur_offset(k as int) == Some(o as int),
            Option::None => slur_offset(k as int) is None,
        },
{
    if k == 0 || k == 5 || k == 15 || k == 19 {
        Some(0)
    } else if k == 1 || k == 3 || k == 16 || k == 18 {
        Some(7)
    } else if k == 2 || k == 6 || k == 8 || k == 17 {
        Some(12)
    } else if k == 7 {
        Some(0)
    } else if k == 10 {
        Some(2)
    } else if k == 11 || k == 13 {
        Some(9)
    } else if k == 12 {
        Some(14)
    } else {
        None
    }
}

/// Lip slurs: harmonic patterns with a rest between them.
fn generate_lip_slurs(root_midi: i32, tempo_milli: u64) -> (score: Score)
    requires
        root_midi + 14 <= 0x7fff_ffff,
    ensures
        score_built(score, spec_lip_slurs(root_midi as int), tempo_milli),
{
    let ghost model = spec_lip_slurs(root_midi as int);
    let mut notes: Vec<NoteEvent> = Vec::new();
    let mut k: usize = 0;
    while k < 21
        invariant
            k <= 21,
            root_midi + 14 <= 0x7fff_ffff,
            model == spec_lip_slurs(root_midi as int),
            notes@ =~= model.take(k as int),
        decreases 21 - k,
    {
        match slur_offset_of(k) {
            Option::Some(o) => {
                notes.push(make_note(
                    (k as i64) * 1000, 1000, root_midi + o, (k as u32) / 4 + 1));
            }
            Option::None => {
                notes.push(make_rest((k as i64) * 1000, 1000, (k as u32) / 4 + 1));
            }
        }
        proof {
            assert(notes@ =~= model.take(k as int + 1));
        }
        k = k + 1;
    }
    proof {
        assert(model.take(21) =~= model);
    }
    build_score(notes, tempo_milli)
}

/// Interval-size table.
fn interval_size_of(j: i32) -> (v: i32)
    ensures
        v == interval_size(j as int),
{
    if j <= 0 {
        3
    } else if j == 1 {
        4
    } else if j == 2 {
        5
    } else if j == 3 {
        7
    } else {
        12
    }
}

/// Interval drills: each size up then down.
fn generate_intervals(root_midi: i32, tempo_milli: u64) -> (score: Score)
    requires
        root_midi + 12 <= 0x7fff_ffff,
    ensures
        score_built(score, spec_intervals(root_midi as int), tempo_milli),
{
    let ghost model = spec_intervals(root_midi as int);
    let mut notes: Vec<NoteEvent> = Vec::new();
    let mut k: usize = 0;
    while k < 20
        invariant
            k <= 20,
            root_midi + 12 <= 0x7fff_ffff,
            model == spec_intervals(root_midi as int),
            notes@ =~= model.take(k as int),
        decreases 20 - k,
    {
        let pos: usize = k % 4;
        let off: i32 = if pos == 1 || pos == 2 {
            interval_size_of((k / 4) as i32)
        } else {
            0
        };
        notes.push(make_note(
            (k as i64) * 1000, 1000, root_midi + off, (k as u32) / 4 + 1));
        proof {
            assert(notes@ =~= model.take(k as int + 1));
        }
        k = k + 1;
    }
    proof {
        assert(model.take(20) =~= model);
    }
    build_score(notes, tempo_milli)
}

/// Arpeggio table entry, rests encoded as `None`.
fn arp_offset_of(k: usize) -> (v: Option<i32>)
    ensures
        match v {
            Option::Some(o) => arp_offset(k as int) == Some(o as int),
            Option::None => arp_offset(k as int) is None,
        },
{
    if k == 0 || k == 6 || k == 8 || k == 14 {
        Some(0)
    } else if k == 1 || k == 5 {
        Some(4)
    } else if k == 2 || k == 4 || k == 10 || k == 12 {
        Some(7)
    } else if k == 3 || k == 11 {
        Some(12)
    } else if k == 9 || k == 13 {
        Some(3)
    } else {
        None
    }
}

/// Major then minor arpeggios with a rest between them.
fn generate_arpeggios(root_midi: i32, tempo_milli: u64) -> (score: Score)
    requires
        root_midi + 12 <= 0x7fff_ffff,
    ensures
        score_built(score, spec_arpeggios(root_midi as int), tempo_milli),
{
    let ghost model = spec_arpeggios(root_midi as int);
    let mut notes: Vec<NoteEvent> = Vec::new();
    let mut k: usize = 0;
    while k < 16
        invariant
            k <= 16,
            root_midi + 12 <= 0x7fff_ffff,
            model == spec_arpeggios(root_midi as int),
            notes@ =~= model.take(k as int),
        decreases 16 - k,
    {
        match arp_offset_of(k) {
            Option::Some(o) => {
                notes.push(make_note(
                    (k as i64) * 1000, 1000, root_midi + o, (k as u32) / 4 + 1));
            }
            Option::None => {
                notes.push(make_rest((k as i64) * 1000, 1000, (k as u32) / 4 + 1));
            }
        }
        proof {
            assert(notes@ =~= model.take(k as int + 1));
        }
        k = k + 1;
    }
    proof {
        assert(model.take(16) =~= model);
    }
    build_score(notes, tempo_milli)
}

} // verus!
