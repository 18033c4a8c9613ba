//! Greedy alignment of played notes against the score's targets: each target,
//! in score order, claims the unused played note closest to it in time, ties
//! going to the earliest played note scanned; a claimed note is never
//! reconsidered.

use vstd::prelude::*;
use crate::num::abs_int;
use crate::num::abs_diff_i64;
use crate::types::{
    NoteEvent, NoteResult, NoteStatus, PlayedNote, BEAT_LIMIT, LIST_LIMIT, MIDI_LIMIT,
    MIDI_MILLI_LIMIT,
};

verus! {

/// Largest pitch-error magnitude, in milli-cents, a match can record.
pub const CENT_ERR_LIMIT: i64 = 400_000_000;

/// What holds of every result the matcher emits: bounded figures, and the
/// matched fields present exactly on the notes that were not missed.
pub open spec fn result_bounded(r: NoteResult) -> bool {
    &&& -BEAT_LIMIT <= r.target_beat_milli <= BEAT_LIMIT
    &&& -MIDI_LIMIT <= r.target_midi <= MIDI_LIMIT
    &&& (r.status is Missed <==> r.played_midi_milli is None)
    &&& (r.status is Missed <==> r.pitch_error_millicents is None)
    &&& (r.status is Missed <==> r.timing_error_milli is None)
    &&& match r.pitch_error_millicents {
        Option::Some(e) => -CENT_ERR_LIMIT <= e <= CENT_ERR_LIMIT,
        Option::None => true,
    }
    &&& match r.timing_error_milli {
        Option::Some(e) => -2_000_000_000 <= e <= 2_000_000_000,
        Option::None => true,
    }
}

/// The non-rest notes of a score, in score order: the analysis targets.
pub open spec fn spec_targets(notes: Seq<NoteEvent>) -> Seq<NoteEvent>
    decreases notes.len(),
{
    if notes.len() == 0 {
        Seq::empty()
    } else {
        let rest = spec_targets(notes.drop_last());
        if notes.last().is_rest {
            rest
        } else {
            rest.push(notes.last())
        }
    }
}

/// Signed pitch error, in milli-cents, of a played fractional pitch against a
/// whole-number target pitch.
pub open spec fn spec_cent_error(played_midi_milli: int, target_midi: int) -> int {
    (played_midi_milli - target_midi * 1000) * 100
}

/// Signed pitch error in milli-cents (1 cent == 1000) of a played
/// milli-midi pitch against a whole-number target MIDI pitch.
pub fn cents_between(played_midi_milli: i64, target_midi: i32) -> (cents: i64)
    requires
        -MIDI_MILLI_LIMIT <= played_midi_milli <= MIDI_MILLI_LIMIT,
        -MIDI_LIMIT <= target_midi <= MIDI_LIMIT,
    ensures
        cents == spec_cent_error(played_midi_milli as int, target_midi as int),
{
    (played_midi_milli - (target_midi as i64) * 1000) * 100
}

/// The best candidate among the first `k` played notes for a target starting
/// at `t` milli-beats: unused, within `tol` milli-beats, minimal distance,
/// the earliest scanned winning ties.
pub open spec fn spec_best_in_prefix(
    played: Seq<PlayedNote>,
    used: Seq<bool>,
    t: int,
    tol: int,
    k: nat,
) -> Option<int>
    decreases k,
{
    if k == 0 {
        None
    } else {
        let prev = spec_best_in_prefix(played, used, t, tol, (k - 1) as nat);
        let i = k - 1;
        let d = abs_int(played[i].onset_beat_milli - t);
        if !used[i] && d <= tol && (match prev {
            Option::None => true,
            Option::Some(b) => d < abs_int(played[b].onset_beat_milli - t),
        }) {
            Some(i as int)
        } else {
            prev
        }
    }
}

/// The played note a target claims, over the whole played list.
pub open spec fn spec_best_match(played: Seq<PlayedNote>, used: Seq<bool>, t: int, tol: int)
    -> Option<int> {
    spec_best_in_prefix(played, used, t, tol, played.len())
}

/// The result recorded for a target no played note qualified for.
pub open spec fn missed_result(t: NoteEvent) -> NoteResult {
    NoteResult {
        target_midi: t.midi,
        target_beat_milli: t.start_beat_milli,
        status: NoteStatus::Missed,
        played_midi_milli: None,
        pitch_error_millicents: None,
        timing_error_milli: None,
    }
}

/// The result recorded for a target matched to played note `p`: correct when
/// the pitch error stays within `tol_cents` milli-cents, wrong pitch
/// otherwise, the match itself recorded either way.
pub open spec fn matched_result(t: NoteEvent, p: PlayedNote, tol_cents: int) -> NoteResult {
    let cents = spec_cent_error(p.midi_milli as int, t.midi as int);
    NoteResult {
        target_midi: t.midi,
        target_beat_milli: t.start_beat_milli,
        status: if abs_int(cents) <= tol_cents {
            NoteStatus::Correct
        } else {
            NoteStatus::WrongPitch
        },
        played_midi_milli: Some(p.midi_milli),
        pitch_error_millicents: Some(cents as i64),
        timing_error_milli: Some((p.onset_beat_milli - t.start_beat_milli) as i64),
    }
}

/// Greedy matching of all targets, front to back, threading the used-note
/// mask; yields the per-target results and the final mask.
pub open spec fn spec_match(
    targets: Seq<NoteEvent>,
    played: Seq<PlayedNote>,
    used: Seq<bool>,
    tol_cents: int,
    tol_timing: int,
) -> (Seq<NoteResult>, Seq<bool>)
    decreases targets.len(),
{
    if targets.len() == 0 {
        (Seq::empty(), used)
    } else {
        let t = targets[0];
        match spec_best_match(played, used, t.start_beat_milli as int, tol_timing) {
            Option::None => {
                let rec = spec_match(targets.drop_first(), played, used, tol_cents, tol_timing);
                (seq![missed_result(t)] + rec.0, rec.1)
            }
            Option::Some(i) => {
                let rec = spec_match(
                    targets.drop_first(),
                    played,
                    used.update(i, true),
                    tol_cents,
                    tol_timing,
                );
                (seq![matched_result(t, played[i], tol_cents)] + rec.0, rec.1)
            }
        }
    }
}

/// The fresh all-unused mask for `n` played notes.
pub open spec fn fresh_mask(n: nat) -> Seq<bool> {
    Seq::new(n, |i: int| false)
}

/// How many entries of a mask are set.
pub open spec fn count_true(bs: Seq<bool>) -> int
    decreases bs.len(),
{
    if bs.len() == 0 {
        0
    } else {
        (if bs[0] {
            1int
        } else {
            0int
        }) + count_true(bs.drop_first())
    }
}

/// A mask holds between zero and its length set entries; the fresh mask
/// holds none.
pub proof fn lemma_count_true_bounds(bs: Seq<bool>)
    ensures
        0 <= count_true(bs) <= bs.len(),
        (forall|i: int| 0 <= i < bs.len() ==> !bs[i]) ==> count_true(bs) == 0,
    decreases bs.len(),
{
    if bs.len() > 0 {
        lemma_count_true_bounds(bs.drop_first());
    }
}

/// Setting an unset entry raises the set count by exactly one.
pub proof fn lemma_count_true_update(bs: Seq<bool>, j: int)
    requires
        0 <= j < bs.len(),
        !bs[j],
    ensures
        count_true(bs.update(j, true)) == count_true(bs) + 1,
    decreases bs.len(),
{
    let upd = bs.update(j, true);
    if j == 0 {
        assert(upd.drop_first() =~= bs.drop_first());
    } else {
        assert(upd.drop_first() =~= bs.drop_first().update(j - 1, true));
        lemma_count_true_update(bs.drop_first(), j - 1);
    }
}

/// A chosen candidate is a real, unused played note within tolerance.
pub proof fn lemma_best_in_prefix_some(
    played: Seq<PlayedNote>,
    used: Seq<bool>,
    t: int,
    tol: int,
    k: nat,
)
    requires
        k <= played.len(),
    ensures
        match spec_best_in_prefix(played, used, t, tol, k) {
            Option::Some(b) => 0 <= b < k && !used[b]
                && abs_int(played[b].onset_beat_milli - t) <= tol,
            Option::None => true,
        },
    decreases k,
{
    if k > 0 {
        lemma_best_in_prefix_some(played, used, t, tol, (k - 1) as nat);
    }
}

/// What greedy matching guarantees as a whole: one result per target,
/// carrying that target's pitch and onset; bounded, consistently-filled
/// fields; and a used mask that grows by exactly one set entry per matched
/// target, so no played note is claimed twice.
pub proof fn lemma_match_properties(
    targets: Seq<NoteEvent>,
    played: Seq<PlayedNote>,
    used: Seq<bool>,
    tol_cents: int,
    tol_timing: int,
)
    requires
        used.len() == played.len(),
        forall|i: int| 0 <= i < targets.len() ==> (#[trigger] targets[i]).bounded(),
        forall|i: int| 0 <= i < played.len() ==> (#[trigger] played[i]).bounded(),
    ensures
        ({
            let rs = spec_match(targets, played, used, tol_cents, tol_timing).0;
            let u2 = spec_match(targets, played, used, tol_cents, tol_timing).1;
            &&& rs.len() == targets.len()
            &&& u2.len() == used.len()
            &&& forall|i: int| 0 <= i < rs.len() ==> result_bounded(#[trigger] rs[i])
            &&& forall|i: int| 0 <= i < rs.len() ==> (#[trigger] rs[i]).target_midi
                == targets[i].midi && rs[i].target_beat_milli == targets[i].start_beat_milli
            &&& crate::stats::count_matched(rs) == count_true(u2) - count_true(used)
            &&& count_true(used) <= count_true(u2) <= u2.len()
        }),
    decreases targets.len(),
{
    lemma_count_true_bounds(used);
    let rs = spec_match(targets, played, used, tol_cents, tol_timing).0;
    let u2 = spec_match(targets, played, used, tol_cents, tol_timing).1;
    if targets.len() == 0 {
        lemma_count_true_bounds(u2);
    } else {
        let t = targets[0];
        let best = spec_best_match(played, used, t.start_beat_milli as int, tol_timing);
        lemma_best_in_prefix_some(
            played, used, t.start_beat_milli as int, tol_timing, played.len());
        match best {
            Option::None => {
                lemma_match_properties(
                    targets.drop_first(), played, used, tol_cents, tol_timing);
                let rec = spec_match(targets.drop_first(), played, used, tol_cents, tol_timing);
                assert(rs =~= seq![missed_result(t)] + rec.0);
                assert(rs.drop_first() =~= rec.0);
                assert(forall|i: int| 1 <= i < rs.len()
                    ==> rs[i] == #[trigger] rec.0[i - 1]);
                assert(forall|i: int| 1 <= i < rs.len()
                    ==> targets[i] == #[trigger] targets.drop_first()[i - 1]);
            }
            Option::Some(b) => {
                let u1 = used.update(b, true);
                lemma_count_true_update(used, b);
                lemma_match_properties(
                    targets.drop_first(), played, u1, tol_cents, tol_timing);
                let rec = spec_match(targets.drop_first(), played, u1, tol_cents, tol_timing);
                assert(rs =~= seq![matched_result(t, played[b], tol_cents)] + rec.0);
                assert(rs.drop_first() =~= rec.0);
                assert(played[b].bounded());
                assert(t.bounded());
                assert(result_bounded(rs[0]));
                assert(forall|i: int| 1 <= i < rs.len()
                    ==> rs[i] == #[trigger] rec.0[i - 1]);
                assert(forall|i: int| 1 <= i < rs.len()
                    ==> targets[i] == #[trigger] targets.drop_first()[i - 1]);
            }
        }
    }
}

/// The non-rest notes of `notes`, as a vector of copies in score order.
pub fn collect_targets(notes: &Vec<NoteEvent>) -> (targets: Vec<NoteEvent>)
    ensures
        targets@ == spec_targets(notes@),
{
    let mut targets: Vec<NoteEvent> = Vec::new();
    let mut i: usize = 0;
    while i < notes.len()
        invariant
            i <= notes@.len(),
            targets@ == spec_targets(notes@.take(i as int)),
        decreases notes@.len() - i,
    {
        proof {
            assert(notes@.take(i + 1).drop_last() =~= notes@.take(i as int));
            assert(notes@.take(i + 1).last() == notes@[i as int]);
        }
        if !notes[i].is_rest {
            targets.push(notes[i]);
        }
        i = i + 1;
    }
    proof {
        assert(notes@.take(notes@.len() as int) =~= notes@);
    }
    targets
}

/// Greedy note matching, exactly the model `spec_match` describes, starting
/// from the all-unused mask.
pub fn match_notes(
    targets: &Vec<NoteEvent>,
    played: &[PlayedNote],
    tolerance_cents_milli: u64,
    timing_tolerance_milli: u64,
) -> (results: Vec<NoteResult>)
    requires
        targets@.len() <= LIST_LIMIT,
        played@.len() <= LIST_LIMIT,
        forall|i: int| 0 <= i < targets@.len() ==> (#[trigger] targets@[i]).bounded(),
        forall|i: int| 0 <= i < played@.len() ==> (#[trigger] played@[i]).bounded(),
        tolerance_cents_milli <= 1_000_000_000,
        timing_tolerance_milli <= 1_000_000_000,
    ensures
        results@ == spec_match(
            targets@,
            played@,
            fresh_mask(played@.len()),
            tolerance_cents_milli as int,
            timing_tolerance_milli as int,
        ).0,
{
    let ghost tol_c: int = tolerance_cents_milli as int;
    let ghost tol_t: int = timing_tolerance_milli as int;
    let ghost full: (Seq<NoteResult>, Seq<bool>) = spec_match(
        targets@,
        played@,
        fresh_mask(played@.len()),
        tol_c,
        tol_t,
    );
    let mut results: Vec<NoteResult> = Vec::new();
    let mut used: Vec<bool> = Vec::new();
    let mut k: usize = 0;
    while k < played.len()
        invariant
            k <= played@.len(),
            used@ =~= fresh_mask(k as nat),
        decreases played@.len() - k,
    {
        used.push(false);
        k = k + 1;
    }
    proof {
        assert(used@ =~= fresh_mask(played@.len()));
    }

    proof {
        assert(targets@.skip(0) =~= targets@);
        assert(results@ + spec_match(targets@, played@, used@, tol_c, tol_t).0
            =~= spec_match(targets@, played@, used@, tol_c, tol_t).0);
    }
    let mut j: usize = 0;
    while j < targets.len()
        invariant
            j <= targets@.len(),
            used@.len() == played@.len(),
            played@.len() <= LIST_LIMIT,
            targets@.len() <= LIST_LIMIT,
            tolerance_cents_milli <= 1_000_000_000,
            timing_tolerance_milli <= 1_000_000_000,
            tol_c == tolerance_cents_milli as int,
            tol_t == timing_tolerance_milli as int,
            forall|i: int| 0 <= i < targets@.len() ==> (#[trigger] targets@[i]).bounded(),
            forall|i: int| 0 <= i < played@.len() ==> (#[trigger] played@[i]).bounded(),
            results@.len() == j,
            full.0 == results@ + spec_match(targets@.skip(j as int), played@, used@, tol_c, tol_t).0,
            full.1 == spec_match(targets@.skip(j as int), played@, used@, tol_c, tol_t).1,
        decreases targets@.len() - j,
    {
        let ghost pre_used = used@;
        let target = &targets[j];
        let ghost tstart: int = target.start_beat_milli as int;
        let mut best_idx: usize = 0;
        let mut best_dist: u64 = 0;
        let mut have_best: bool = false;
        let mut i: usize = 0;
        while i < played.len()
            invariant
                i <= played@.len(),
                used@ == pre_used,
                used@.len() == played@.len(),
                forall|q: int| 0 <= q < played@.len() ==> (#[trigger] played@[q]).bounded(),
                target.bounded(),
                tstart == target.start_beat_milli as int,
                timing_tolerance_milli <= 1_000_000_000,
                tol_t == timing_tolerance_milli as int,
                have_best ==> spec_best_in_prefix(played@, used@, tstart, tol_t, i as nat)
                    == Some(best_idx as int),
                have_best ==> best_idx < played@.len(),
                have_best ==> best_dist
                    == abs_int(played@[best_idx as int].onset_beat_milli - tstart),
                !have_best ==> spec_best_in_prefix(played@, used@, tstart, tol_t, i as nat)
                    is None,
            decreases played@.len() - i,
        {
            let ghost prev: Option<int> = spec_best_in_prefix(
                played@, used@, tstart, tol_t, i as nat);
            if !used[i] {
                let d: u64 = abs_diff_i64(played[i].onset_beat_milli, target.start_beat_milli);
                if d <= timing_tolerance_milli && (!have_best || d < best_dist) {
                    best_dist = d;
                    best_idx = i;
                    have_best = true;
                }
            }
            proof {
                let next = spec_best_in_prefix(played@, used@, tstart, tol_t, (i + 1) as nat);
                let d = abs_int(played@[i as int].onset_beat_milli - tstart);
                assert(next == if !used@[i as int] && d <= tol_t && (match prev {
                    Option::None => true,
                    Option::Some(b) => d < abs_int(played@[b].onset_beat_milli - tstart),
                }) {
                    Some(i as int)
                } else {
                    prev
                });
            }
            i = i + 1;
        }
        proof {
            assert(targets@.skip(j as int)[0] == targets@[j as int]);
            assert(targets@.skip(j as int).drop_first() =~= targets@.skip(j as int + 1));
        }
        if have_best {
            let played_note = &played[best_idx];
            let cents: i64 = cents_between(played_note.midi_milli, target.midi);
            let timing: i64 = played_note.onset_beat_milli - target.start_beat_milli;
            let status = if cents >= 0 && (cents as u64) <= tolerance_cents_milli {
                NoteStatus::Correct
            } else if cents < 0 && ((-(cents as i128)) as u64) <= tolerance_cents_milli {
                NoteStatus::Correct
            } else {
                NoteStatus::WrongPitch
            };
            results.push(NoteResult {
                target_midi: target.midi,
                target_beat_milli: target.start_beat_milli,
                status,
                played_midi_milli: Some(played_note.midi_milli),
                pitch_error_millicents: Some(cents),
                timing_error_milli: Some(timing),
            });
            used.set(best_idx, true);
            proof {
                assert(used@ =~= pre_used.update(best_idx as int, true));
                assert(results@.last() == matched_result(
                    targets@[j as int], played@[best_idx as int], tol_c));
                assert(results@ =~= results@.drop_last().push(results@.last()));
                assert(full.0 == results@
                    + spec_match(targets@.skip(j as int + 1), played@, used@, tol_c, tol_t).0) by {
                    assert(results@.drop_last() + spec_match(
                        targets@.skip(j as int), played@, pre_used, tol_c, tol_t).0
                        =~= results@ + spec_match(
                            targets@.skip(j as int + 1), played@, used@, tol_c, tol_t).0);
                }
            }
        } else {
            results.push(NoteResult {
                target_midi: target.midi,
                target_beat_milli: target.start_beat_milli,
                status: NoteStatus::Missed,
                played_midi_milli: None,
                pitch_error_millicents: None,
                timing_error_milli: None,
            });
            proof {
                assert(results@.last() == missed_result(targets@[j as int]));
                assert(results@ =~= results@.drop_last().push(results@.last()));
                assert(full.0 == results@
                    + spec_match(targets@.skip(j as int + 1), played@, used@, tol_c, tol_t).0) by {
                    assert(results@.drop_last() + spec_match(
                        targets@.skip(j as int), played@, pre_used, tol_c, tol_t).0
                        =~= results@ + spec_match(
                            targets@.skip(j as int + 1), played@, used@, tol_c, tol_t).0);
                }
            }
        }
        j = j + 1;
    }
    proof {
        assert(targets@.skip(targets@.len() as int) =~= Seq::<NoteEvent>::empty());
        assert(full.0 =~= results@);
    }
    results
}

} // verus!
