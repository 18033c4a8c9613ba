//! The data model shared by the pitch detector and the performance analyzer.
//!
//! Continuous quantities are exact fixed-point integers: beats in
//! milli-beats, fractional MIDI pitch in milli-midi, pitch errors in
//! milli-cents (1 cent == 1000), unit-interval scores in milli units.

use vstd::prelude::*;

verus! {

/// Largest magnitude, in milli-beats, a beat position or duration may have.
pub const BEAT_LIMIT: i64 = 1_000_000_000;

/// Largest magnitude, in milli-midi, a fractional pitch may have.
pub const MIDI_MILLI_LIMIT: i64 = 1_000_000;

/// Largest magnitude a whole-number MIDI pitch in a score may have.
pub const MIDI_LIMIT: i32 = 1_000;

/// Longest note list, played-note list or pitch trail the analyzer accepts.
pub const LIST_LIMIT: usize = 1_000_000;

/// Notation name of a note's duration, as a closed set of variants; labels
/// outside the common ones collapse to `Other`.
#[derive(Clone, Copy, Debug, PartialEq, Eq, Structural)]
pub enum NoteType {
    Whole,
    Half,
    Quarter,
    Eighth,
    Sixteenth,
    Other,
}

/// One note of the reference score. `midi == -1` exactly when `is_rest`.
#[derive(Clone, Copy, Debug)]
pub struct NoteEvent {
    /// Onset, in milli-beats from the start of the piece.
    pub start_beat_milli: i64,
    /// Duration in milli-beats; positive for well-formed scores.
    pub duration_beats_milli: i64,
    /// Whole-number MIDI pitch, or -1 for a rest.
    pub midi: i32,
    pub is_rest: bool,
    pub measure_number: u32,
    /// Notation name of the duration.
    pub note_type: NoteType,
}

impl NoteEvent {
    /// Field bounds under which the analyzer's arithmetic cannot overflow.
    pub open spec fn bounded(self) -> bool {
        &&& -BEAT_LIMIT <= self.start_beat_milli <= BEAT_LIMIT
        &&& -BEAT_LIMIT <= self.duration_beats_milli <= BEAT_LIMIT
        &&& -MIDI_LIMIT <= self.midi <= MIDI_LIMIT
    }
}

/// One detected note of the performance.
#[derive(Clone, Copy, Debug)]
pub struct PlayedNote {
    /// Onset, in milli-beats.
    pub onset_beat_milli: i64,
    /// Detected fractional pitch, in milli-midi.
    pub midi_milli: i64,
    /// Detected pitch rounded to a whole MIDI number.
    pub midi_rounded: i32,
    /// Detector confidence, in milli units of the unit interval.
    pub confidence_milli: u32,
}

impl PlayedNote {
    /// Field bounds under which the analyzer's arithmetic cannot overflow.
    pub open spec fn bounded(self) -> bool {
        &&& -BEAT_LIMIT <= self.onset_beat_milli <= BEAT_LIMIT
        &&& -MIDI_MILLI_LIMIT <= self.midi_milli <= MIDI_MILLI_LIMIT
    }
}

/// One sample of the dense pitch trail.
#[derive(Clone, Copy, Debug)]
pub struct PitchTrailPoint {
    /// Time of the sample, in milli-beats.
    pub beat_milli: i64,
    /// Tracked fractional pitch, in milli-midi.
    pub midi_milli: i64,
}

impl PitchTrailPoint {
    /// Field bounds under which the technique arithmetic cannot overflow.
    pub open spec fn bounded(self) -> bool {
        &&& -BEAT_LIMIT <= self.beat_milli <= BEAT_LIMIT
        &&& -MIDI_MILLI_LIMIT <= self.midi_milli <= MIDI_MILLI_LIMIT
    }
}

/// Outcome of one target note.
#[derive(Clone, Copy, Debug, PartialEq, Eq, Structural)]
pub enum NoteStatus {
    Correct,
    WrongPitch,
    Missed,
}

/// Per-target-note result, in score order.
#[derive(Clone, Copy, Debug)]
pub struct NoteResult {
    pub target_midi: i32,
    /// Target onset, in milli-beats.
    pub target_beat_milli: i64,
    pub status: NoteStatus,
    /// Matched pitch in milli-midi; `None` exactly when the note was missed.
    pub played_midi_milli: Option<i64>,
    /// Signed pitch error in milli-cents; `None` exactly when missed.
    pub pitch_error_millicents: Option<i64>,
    /// Signed timing error in milli-beats; `None` exactly when missed.
    pub timing_error_milli: Option<i64>,
}

/// Direction of a melodic jump.
#[derive(Clone, Copy, Debug, PartialEq, Eq, Structural)]
pub enum Direction {
    Up,
    Down,
}

/// A recurring mis-execution of one melodic jump.
#[derive(Clone, Debug)]
pub struct IntervalProblem {
    /// Note name of the jump's first pitch, such as "C4".
    pub from_note: String,
    /// Note name of the jump's second pitch.
    pub to_note: String,
    pub direction: Direction,
    /// Mean signed error on the jump's second note, in milli-cents.
    pub avg_error_millicents: i64,
    /// How many times the jump was played out of tune.
    pub count: u32,
}

/// Overall pitch bias of the performance.
#[derive(Clone, Copy, Debug, PartialEq, Eq, Structural)]
pub enum PitchTendency {
    Sharp,
    Flat,
    Accurate,
}

/// Overall timing bias of the performance.
#[derive(Clone, Copy, Debug, PartialEq, Eq, Structural)]
pub enum TimingTendency {
    Early,
    Late,
    OnTime,
}

/// One diagnostic message of the report. Each variant carries the rounded
/// figures its sentence quotes; `text` renders the sentence.
#[derive(Clone, Copy, Debug, PartialEq, Eq, Structural)]
pub enum Feedback {
    /// The score had no notes to analyze.
    NoNotes,
    /// At least 90 percent of the notes were correct.
    Excellent { pct: u32 },
    /// At least 70 percent of the notes were correct.
    Good { pct: u32 },
    /// At least 50 percent of the notes were correct.
    Steady { pct: u32 },
    /// Under 50 percent of the notes were correct.
    Tough { pct: u32 },
    /// Some target notes were never played.
    MissedNotes { count: u32 },
    /// Sustained sharp bias, quoted in whole cents.
    SharpBias { cents: u32 },
    /// Sustained flat bias, quoted in whole cents (magnitude).
    FlatBias { cents: u32 },
    /// Sustained late entries.
    LateBias,
    /// Sustained early entries.
    EarlyBias,
    /// A repeated overshoot on one melodic jump; error in whole cents.
    Overshoot { from_midi: i32, to_midi: i32, ascending: bool, cents: u32 },
    /// A repeated undershoot on one melodic jump; error in whole cents.
    Undershoot { from_midi: i32, to_midi: i32, ascending: bool, cents: u32 },
    /// Nothing else fired: remind the player to record a take.
    MicReminder,
}

/// One technique diagnostic message.
#[derive(Clone, Copy, Debug, PartialEq, Eq, Structural)]
pub enum TechniqueFeedback {
    /// Pitch wobbles on sustained notes.
    UnsteadyPitch,
    /// Note attacks settle slowly.
    SlowAttacks,
    /// Pitch sags through long notes.
    FadingSupport,
    /// Accuracy drops in the second half of the piece.
    EnduranceDrop,
}

/// The analyzer's full report.
#[derive(Clone, Debug)]
pub struct PerformanceAnalysis {
    pub total_notes: u32,
    pub notes_correct: u32,
    pub notes_wrong_pitch: u32,
    pub notes_missed: u32,
    /// Mean signed pitch error over matched notes, in milli-cents.
    pub avg_pitch_error_millicents: i64,
    /// Mean signed timing error over matched notes, in milli-beats.
    pub avg_timing_error_milli: i64,
    pub pitch_tendency: PitchTendency,
    pub timing_tendency: TimingTendency,
    /// Worst recurring interval problems, most severe first, at most three.
    pub problem_intervals: Vec<IntervalProblem>,
    /// Diagnostic messages, in a fixed rule order.
    pub feedback: Vec<Feedback>,
    /// Overall 0-100 score, in milli units (100_000 == 100).
    pub overall_score_milli: u32,
    pub note_results: Vec<NoteResult>,
    /// Mean in-note pitch deviation, in milli-cents, when a trail was given.
    pub pitch_stability_millicents: Option<u64>,
    /// 0-1 attack-settling score in milli units, when a trail was given.
    pub attack_quality_milli: Option<u32>,
    /// 0-1 sustain score in milli units, when a trail was given.
    pub breath_support_milli: Option<u32>,
    /// First-half minus second-half accuracy, in milli percentage points.
    pub endurance_delta_milli: Option<i64>,
    pub technique_feedback: Vec<TechniqueFeedback>,
}

/// Measure bookkeeping carried by a score.
#[derive(Clone, Copy, Debug)]
pub struct MeasureInfo {
    pub number: u32,
    /// Start of the measure, in milli-beats.
    pub start_beat_milli: i64,
    /// Length of the measure, in milli-beats.
    pub duration_beats_milli: i64,
    pub time_sig_num: u8,
    pub time_sig_den: u8,
}

/// Instrument transposition: how far written pitch sits above concert pitch.
#[derive(Clone, Copy, Debug, PartialEq, Eq, Structural)]
pub struct TransposeInfo {
    pub chromatic: i32,
    pub diatonic: i32,
}

/// A reference score: the notes plus the metadata the trainer displays.
#[derive(Clone, Debug)]
pub struct Score {
    /// Tempo in milli-beats-per-minute.
    pub tempo_milli: u64,
    pub notes: Vec<NoteEvent>,
    pub measures: Vec<MeasureInfo>,
    pub key_fifths: i32,
    pub transpose: Option<TransposeInfo>,
    pub title: Option<String>,
    /// Total length of the piece, in milli-beats.
    pub total_beats_milli: i64,
}

impl Score {
    /// Bounds under which the analyzer's arithmetic cannot overflow.
    pub open spec fn bounded(self) -> bool {
        &&& self.notes@.len() <= LIST_LIMIT
        &&& forall|i: int| 0 <= i < self.notes@.len() ==> (#[trigger] self.notes@[i]).bounded()
    }
}

} // verus!
