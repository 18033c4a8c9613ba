//! The report's diagnostic sentences: each feedback variant rendered as
//! the human-readable line the trainer shows.

use vstd::prelude::*;
use crate::notes::{midi_to_name, spec_midi_name};
use crate::num::{push_udec, spec_udec};
use crate::types::{Feedback, TechniqueFeedback};

verus! {

/// The sentence a feedback entry renders to.
pub open spec fn spec_feedback_text(f: Feedback) -> Seq<char> {
    match f {
        Feedback::NoNotes => "No notes in score to analyze."@,
        Feedback::Excellent { pct } => "Excellent! You nailed "@ + spec_udec(pct as nat)
            + "% of the notes."@,
        Feedback::Good { pct } => "Good job! You got "@ + spec_udec(pct as nat)
            + "% of the notes right."@,
        Feedback::Steady { pct } => "Keep practicing! You hit "@ + spec_udec(pct as nat)
            + "% of the notes correctly."@,
        Feedback::Tough { pct } => "This one's tough! You got "@ + spec_udec(pct as nat)
            + "% correct. Try slowing down the tempo."@,
        Feedback::MissedNotes { count } => "You missed "@ + spec_udec(count as nat)
            + " note"@ + (if count == 1 {
            ""@
        } else {
            "s"@
        }) + ". Make sure to play through the whole piece."@,
        Feedback::SharpBias { cents } => "Your pitch is consistently "@
            + spec_udec(cents as nat)
            + " cents sharp. Try relaxing your embouchure slightly."@,
        Feedback::FlatBias { cents } => "Your pitch is consistently "@
            + spec_udec(cents as nat)
            + " cents flat. Try firming up your embouchure and using more air support."@,
        Feedback::LateBias =>
            "You tend to come in late. Try anticipating the beat and starting your air a bit earlier."@,
        Feedback::EarlyBias =>
            "You tend to rush ahead. Try listening to the beat and holding back slightly."@,
        Feedback::Overshoot { from_midi, to_midi, ascending, cents } =>
            "You overshoot when going "@ + (if ascending {
            "ascending"@
        } else {
            "descending"@
        }) + " from "@ + spec_midi_name(from_midi as int) + " to "@
            + spec_midi_name(to_midi as int) + " (avg +"@ + spec_udec(cents as nat)
            + " cents). Try less pressure on the jump."@,
        Feedback::Undershoot { from_midi, to_midi, ascending, cents } =>
            "You undershoot when going "@ + (if ascending {
            "ascending"@
        } else {
            "descending"@
        }) + " from "@ + spec_midi_name(from_midi as int) + " to "@
            + spec_midi_name(to_midi as int) + " (avg -"@ + spec_udec(cents as nat)
            + " cents). Use more air support on the jump."@,
        Feedback::MicReminder => "Play with the mic active to get feedback!"@,
    }
}

impl Feedback {
    /// The sentence this entry renders to.
    #[verifier::rlimit(100)]
    pub fn text(&self) -> (s: String)
        ensures
            s@ == spec_feedback_text(*self),
    {
        let mut s = String::new();
        match self {
            Feedback::NoNotes => {
                s.append("No notes in score to analyze.");
                proof { assert(s@ =~= spec_feedback_text(*self)); }
            }
            Feedback::Excellent { pct } => {
                s.append("Excellent! You nailed ");
                push_udec(&mut s, *pct as u64);
                s.append("% of the notes.");
                proof { assert(s@ =~= spec_feedback_text(*self)); }
            }
            Feedback::Good { pct } => {
                s.append("Good job! You got ");
                push_udec(&mut s, *pct as u64);
                s.append("% of the notes right.");
                proof { assert(s@ =~= spec_feedback_text(*self)); }
            }
            Feedback::Steady { pct } => {
                s.append("Keep practicing! You hit ");
                push_udec(&mut s, *pct as u64);
                s.append("% of the notes correctly.");
                proof { assert(s@ =~= spec_feedback_text(*self)); }
            }
            Feedback::Tough { pct } => {
                s.append("This one's tough! You got ");
                push_udec(&mut s, *pct as u64);
                s.append("% correct. Try slowing down the tempo.");
                proof { assert(s@ =~= spec_feedback_text(*self)); }
            }
            Feedback::MissedNotes { count } => {
                proof {
                    reveal_strlit("");
                    reveal_strlit("s");
                }
                s.append("You missed ");
                push_udec(&mut s, *count as u64);
                s.append(" note");
                if *count != 1 {
                    s.append("s");
                }
                s.append(". Make sure to play through the whole piece.");
                proof { assert(s@ =~= spec_feedback_text(*self)); }
            }
            Feedback::SharpBias { cents } => {
                s.append("Your pitch is consistently ");
                push_udec(&mut s, *cents as u64);
                s.append(" cents sharp. Try relaxing your embouchure slightly.");
                proof { assert(s@ =~= spec_feedback_text(*self)); }
            }
            Feedback::FlatBias { cents } => {
                s.append("Your pitch is consistently ");
                push_udec(&mut s, *cents as u64);
                s.append(
                    " cents flat. Try firming up your embouchure and using more air support.");
                proof { assert(s@ =~= spec_feedback_text(*self)); }
            }
            Feedback::LateBias => {
                s.append(
                    "You tend to come in late. Try anticipating the beat and starting your air a bit earlier.");
                proof { assert(s@ =~= spec_feedback_text(*self)); }
            }
            Feedback::EarlyBias => {
                s.append(
                    "You tend to rush ahead. Try listening to the beat and holding back slightly.");
                proof { assert(s@ =~= spec_feedback_text(*self)); }
            }
            Feedback::Overshoot { from_midi, to_midi, ascending, cents } => {
                s.append("You overshoot when going ");
                if *ascending {
                    s.append("ascending");
                } else {
                    s.append("descending");
                }
                s.append(" from ");
                let from_name = midi_to_name(*from_midi);
                s.append(from_name.as_str());
                s.append(" to ");
                let to_name = midi_to_name(*to_midi);
                s.append(to_name.as_str());
                s.append(" (avg +");
                push_udec(&mut s, *cents as u64);
                s.append(" cents). Try less pressure on the jump.");
                proof { assert(s@ =~= spec_feedback_text(*self)); }
            }
            Feedback::Undershoot { from_midi, to_midi, ascending, cents } => {
                s.append("You undershoot when going ");
                if *ascending {
                    s.append("ascending");
                } else {
                    s.append("descending");
                }
                s.append(" from ");
                let from_name = midi_to_name(*from_midi);
                s.append(from_name.as_str());
                s.append(" to ");
                let to_name = midi_to_name(*to_midi);
                s.append(to_name.as_str());
                s.append(" (avg -");
                push_udec(&mut s, *cents as u64);
                s.append(" cents). Use more air support on the jump.");
                proof { assert(s@ =~= spec_feedback_text(*self)); }
            }
            Feedback::MicReminder => {
                s.append("Play with the mic active to get feedback!");
                proof { assert(s@ =~= spec_feedback_text(*self)); }
            }
        }
        s
    }
}

/// The sentence a technique entry renders to.
pub open spec fn spec_technique_text(f: TechniqueFeedback) -> Seq<char> {
    match f {
        TechniqueFeedback::UnsteadyPitch =>
            "Your pitch wobbles on sustained notes. Focus on steady airflow."@,
        TechniqueFeedback::SlowAttacks =>
            "Your note attacks are slow to center. Try a firmer tongue stroke."@,
        TechniqueFeedback::FadingSupport =>
            "Your pitch drops through long notes. Practice deep breathing."@,
        TechniqueFeedback::EnduranceDrop =>
            "Your accuracy drops later in the piece. Build endurance with long tones."@,
    }
}

impl TechniqueFeedback {
    /// The sentence this entry renders to.
    pub fn text(&self) -> (s: String)
        ensures
            s@ == spec_technique_text(*self),
    {
        let mut s = String::new();
        match self {
            TechniqueFeedback::UnsteadyPitch => {
                s.append("Your pitch wobbles on sustained notes. Focus on steady airflow.");
            }
            TechniqueFeedback::SlowAttacks => {
                s.append("Your note attacks are slow to center. Try a firmer tongue stroke.");
            }
            TechniqueFeedback::FadingSupport => {
                s.append("Your pitch drops through long notes. Practice deep breathing.");
            }
            TechniqueFeedback::EnduranceDrop => {
                s.append(
                    "Your accuracy drops later in the piece. Build endurance with long tones.");
            }
        }
        proof {
            assert(s@ =~= spec_technique_text(*self));
        }
        s
    }
}

} // verus!
