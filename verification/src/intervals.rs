//! Recurring problem intervals: consecutive matched results whose second
//! note is well out of tune are grouped by their (from, to) pitch pair;
//! pairs seen at least twice with a large mean error are reported, worst
//! first, at most three.

use vstd::prelude::*;
use crate::num::{abs_int, div_trunc, div_trunc_i64};
use crate::matching::result_bounded;
use crate::types::{NoteResult, LIST_LIMIT};

verus! {

/// Spec-level accumulator for one melodic jump: the summed signed errors of
/// its out-of-tune second notes, and how often it was seen.
pub ghost struct IntervalGroup {
    pub from: int,
    pub to: int,
    pub sum: int,
    pub count: int,
}

/// Spec-level description of one reported problem interval.
pub ghost struct ProblemModel {
    pub from: int,
    pub to: int,
    pub avg: int,
    pub count: int,
}

/// Exec record of one reported problem interval, before note naming.
pub struct ProblemData {
    pub from_midi: i32,
    pub to_midi: i32,
    pub avg_millicents: i64,
    pub count: u32,
}

/// The first group with this pitch pair, scanning from index `i`.
pub open spec fn find_group_from(gs: Seq<IntervalGroup>, from: int, to: int, i: int)
    -> Option<int>
    decreases gs.len() - i,
{
    if i < 0 || i >= gs.len() {
        None
    } else if gs[i].from == from && gs[i].to == to {
        Some(i)
    } else {
        find_group_from(gs, from, to, i + 1)
    }
}

/// The signed pitch error a result carries, zero when missed.
pub open spec fn err_of(r: NoteResult) -> int {
    match r.pitch_error_millicents {
        Option::Some(e) => e as int,
        Option::None => 0int,
    }
}

/// Whether the pair of consecutive results ending at `i` counts toward
/// interval problems: both matched, and the second note's error beyond half
/// the tolerance.
pub open spec fn pair_qualifies(rs: Seq<NoteResult>, i: int, tol_cents: int) -> bool {
    &&& rs[i - 1].pitch_error_millicents is Some
    &&& rs[i].pitch_error_millicents is Some
    &&& 2 * abs_int(err_of(rs[i])) > tol_cents
}

/// One qualifying error folded into the group list: added to the first
/// group with the same pair, or opening a new group at the end.
pub open spec fn add_error(gs: Seq<IntervalGroup>, from: int, to: int, err: int)
    -> Seq<IntervalGroup> {
    match find_group_from(gs, from, to, 0) {
        Option::Some(i) => gs.update(
            i,
            IntervalGroup { from, to, sum: gs[i].sum + err, count: gs[i].count + 1 },
        ),
        Option::None => gs.push(IntervalGroup { from, to, sum: err, count: 1 }),
    }
}

/// The group list after the consecutive pairs among the first `k` results.
pub open spec fn spec_groups(rs: Seq<NoteResult>, tol_cents: int, k: int) -> Seq<IntervalGroup>
    decreases k,
{
    if k <= 1 {
        Seq::empty()
    } else {
        let prev = spec_groups(rs, tol_cents, k - 1);
        if pair_qualifies(rs, k - 1, tol_cents) {
            add_error(
                prev,
                rs[k - 2].target_midi as int,
                rs[k - 1].target_midi as int,
                err_of(rs[k - 1]),
            )
        } else {
            prev
        }
    }
}

/// Groups seen at least twice whose mean error exceeds twenty cents, in
/// first-encounter order, as problem records.
pub open spec fn qualifying(gs: Seq<IntervalGroup>) -> Seq<ProblemModel>
    decreases gs.len(),
{
    if gs.len() == 0 {
        Seq::empty()
    } else {
        let prev = qualifying(gs.drop_last());
        let g = gs.last();
        if g.count >= 2 && abs_int(div_trunc(g.sum, g.count)) > 20_000 {
            prev.push(
                ProblemModel {
                    from: g.from,
                    to: g.to,
                    avg: div_trunc(g.sum, g.count),
                    count: g.count,
                },
            )
        } else {
            prev
        }
    }
}

/// Index of the largest absolute mean error among the first `k` problems,
/// the earliest winning ties.
pub open spec fn best_problem_in_prefix(ps: Seq<ProblemModel>, k: int) -> int
    decreases k,
{
    if k <= 1 {
        0
    } else {
        let prev = best_problem_in_prefix(ps, k - 1);
        if abs_int(ps[k - 1].avg) > abs_int(ps[prev].avg) {
            k - 1
        } else {
            prev
        }
    }
}

/// The chosen index always lies in the scanned prefix.
pub proof fn lemma_best_in_range(ps: Seq<ProblemModel>, k: int)
    requires
        1 <= k,
    ensures
        0 <= best_problem_in_prefix(ps, k) < k,
    decreases k,
{
    if k > 1 {
        lemma_best_in_range(ps, k - 1);
    }
}

/// The problems ranked by absolute mean error, worst first, the earliest
/// first among equals.
pub open spec fn spec_sorted_problems(ps: Seq<ProblemModel>) -> Seq<ProblemModel>
    decreases ps.len(),
    via spec_sorted_problems_decreases
{
    if ps.len() == 0 {
        ps
    } else {
        let b = best_problem_in_prefix(ps, ps.len() as int);
        seq![ps[b]] + spec_sorted_problems(ps.remove(b))
    }
}

#[via_fn]
proof fn spec_sorted_problems_decreases(ps: Seq<ProblemModel>) {
    if ps.len() > 0 {
        lemma_best_in_range(ps, ps.len() as int);
    }
}

/// Ranking neither adds nor drops problems.
pub proof fn lemma_sorted_len(ps: Seq<ProblemModel>)
    ensures
        spec_sorted_problems(ps).len() == ps.len(),
    decreases ps.len(),
{
    if ps.len() > 0 {
        let b = best_problem_in_prefix(ps, ps.len() as int);
        lemma_best_in_range(ps, ps.len() as int);
        ps.remove_ensures(b);
        lemma_sorted_len(ps.remove(b));
    }
}

/// The reported problem intervals of a result list: grouped, filtered,
/// ranked, and cut to the worst three.
pub open spec fn spec_problems(rs: Seq<NoteResult>, tol_cents: int) -> Seq<ProblemModel> {
    let sorted = spec_sorted_problems(
        qualifying(spec_groups(rs, tol_cents, rs.len() as int)),
    );
    if sorted.len() > 3 {
        sorted.take(3)
    } else {
        sorted
    }
}

/// The exec records carry exactly the model's figures, in the same order.
pub open spec fn problems_match(ds: Seq<ProblemData>, ms: Seq<ProblemModel>) -> bool {
    &&& ds.len() == ms.len()
    &&& forall|i: int| 0 <= i < ds.len() ==> {
        &&& (#[trigger] ds[i]).from_midi == ms[i].from
        &&& ds[i].to_midi == ms[i].to
        &&& ds[i].avg_millicents == ms[i].avg
        &&& ds[i].count == ms[i].count
    }
}

/// The view of the exec group list as its spec model.
pub open spec fn groups_view(gs: Seq<Group>) -> Seq<IntervalGroup> {
    Seq::new(
        gs.len(),
        |i: int| IntervalGroup {
            from: gs[i].from as int,
            to: gs[i].to as int,
            sum: gs[i].sum as int,
            count: gs[i].count as int,
        },
    )
}

/// Exec accumulator for one melodic jump.
pub struct Group {
    pub from: i32,
    pub to: i32,
    pub sum: i64,
    pub count: u32,
}

/// Every group's figures stay within the ranges one pass can produce.
pub open spec fn groups_bounded(gs: Seq<Group>, k: int) -> bool {
    forall|j: int| 0 <= j < gs.len() ==> {
        &&& 1 <= (#[trigger] gs[j]).count <= k
        &&& -400_000_000 * (gs[j].count as int) <= gs[j].sum
            <= 400_000_000 * (gs[j].count as int)
    }
}

/// The problem intervals of a result list, worst first, at most three.
pub fn collect_problems(results: &Vec<NoteResult>, tolerance_cents_milli: u64)
    -> (problems: Vec<ProblemData>)
    requires
        results@.len() <= LIST_LIMIT,
        forall|i: int| 0 <= i < results@.len() ==> result_bounded(#[trigger] results@[i]),
        tolerance_cents_milli <= 1_000_000_000,
    ensures
        problems_match(problems@, spec_problems(results@, tolerance_cents_milli as int)),
        forall|i: int| 0 <= i < problems@.len()
            ==> -400_000_000 <= (#[trigger] problems@[i]).avg_millicents <= 400_000_000,
{
    let ghost rs = results@;
    let ghost tol: int = tolerance_cents_milli as int;

    // Group the qualifying consecutive pairs by pitch pair.
    let mut groups: Vec<Group> = Vec::new();
    let mut i: usize = 1;
    while i < results.len()
        invariant
            1 <= i,
            results.len() > 0 ==> i <= rs.len(),
            results.len() == 0 ==> i == 1,
            rs == results@,
            rs.len() <= LIST_LIMIT,
            forall|q: int| 0 <= q < rs.len() ==> result_bounded(#[trigger] rs[q]),
            tol == tolerance_cents_milli as int,
            groups_view(groups@) == spec_groups(rs, tol, i as int),
            groups_bounded(groups@, i as int),
            groups@.len() <= i,
        decreases rs.len() - i,
    {
        let prev_some = results[i - 1].pitch_error_millicents.is_some();
        let qualifies: bool = match results[i].pitch_error_millicents {
            Option::Some(c) => {
                let mag: u64 = if c >= 0 {
                    c as u64
                } else {
                    (-(c as i128)) as u64
                };
                prev_some && 2 * mag > tolerance_cents_milli
            }
            Option::None => false,
        };
        assert(qualifies == pair_qualifies(rs, i as int, tol));
        if qualifies {
            let from: i32 = results[i - 1].target_midi;
            let to: i32 = results[i].target_midi;
            let err: i64 = match results[i].pitch_error_millicents {
                Option::Some(c) => c,
                Option::None => 0,
            };
            let ghost pre = groups_view(groups@);
            let mut found: bool = false;
            let mut at: usize = 0;
            let mut j: usize = 0;
            while j < groups.len() && !found
                invariant
                    j <= groups@.len(),
                    pre == groups_view(groups@),
                    !found ==> find_group_from(pre, from as int, to as int, 0)
                        == find_group_from(pre, from as int, to as int, j as int),
                    found ==> at < groups@.len()
                        && find_group_from(pre, from as int, to as int, 0) == Some(at as int),
                decreases groups@.len() - j + (if found {
                    0int
                } else {
                    1int
                }),
            {
                if groups[j].from == from && groups[j].to == to {
                    found = true;
                    at = j;
                    proof {
                        assert(find_group_from(pre, from as int, to as int, j as int)
                            == Some(j as int));
                    }
                } else {
                    j = j + 1;
                }
            }
            proof {
                if !found {
                    assert(find_group_from(pre, from as int, to as int, j as int) is None);
                }
            }
            if found {
                let g = Group {
                    from,
                    to,
                    sum: groups[at].sum + err,
                    count: groups[at].count + 1,
                };
                groups.set(at, g);
                proof {
                    assert(groups_view(groups@) =~= add_error(
                        pre, from as int, to as int, err as int));
                }
            } else {
                groups.push(Group { from, to, sum: err, count: 1 });
                proof {
                    assert(groups_view(groups@) =~= add_error(
                        pre, from as int, to as int, err as int));
                }
            }
        }
        i = i + 1;
    }
    proof {
        if rs.len() == 0 {
            assert(groups_view(groups@) =~= spec_groups(rs, tol, rs.len() as int));
        }
    }

    // Keep the groups that recur with a large mean error.
    let ghost gmodels = groups_view(groups@);
    let mut raw: Vec<ProblemData> = Vec::new();
    let mut j: usize = 0;
    while j < groups.len()
        invariant
            j <= groups@.len(),
            gmodels == groups_view(groups@),
            groups_bounded(groups@, LIST_LIMIT as int),
            problems_match(raw@, qualifying(gmodels.take(j as int))),
            forall|q: int| 0 <= q < raw@.len()
                ==> -400_000_000 <= (#[trigger] raw@[q]).avg_millicents <= 400_000_000,
        decreases groups@.len() - j,
    {
        proof {
            assert(gmodels.take(j + 1).drop_last() =~= gmodels.take(j as int));
            assert(gmodels.take(j + 1).last() == gmodels[j as int]);
        }
        let g = &groups[j];
        let avg: i64 = div_trunc_i64(g.sum, g.count as u64);
        proof {
            crate::num::lemma_div_trunc_bound(g.sum as int, g.count as int, 400_000_000);
        }
        if g.count >= 2 && (avg > 20_000 || avg < -20_000) {
            raw.push(ProblemData {
                from_midi: g.from,
                to_midi: g.to,
                avg_millicents: avg,
                count: g.count,
            });
        }
        j = j + 1;
    }
    proof {
        assert(gmodels.take(gmodels.len() as int) =~= gmodels);
    }

    // Rank by absolute mean error, worst first, and keep the top three.
    let ghost all = qualifying(gmodels);
    let ghost full_sorted = spec_sorted_problems(all);
    let ghost mut rem_ms: Seq<ProblemModel> = all;
    let mut sorted: Vec<ProblemData> = Vec::new();
    proof {
        lemma_sorted_len(all);
        assert(full_sorted.skip(0) =~= full_sorted);
        assert(full_sorted.take(0) =~= Seq::<ProblemModel>::empty());
    }
    while raw.len() > 0 && sorted.len() < 3
        invariant
            problems_match(raw@, rem_ms),
            sorted@.len() <= 3,
            problems_match(sorted@, full_sorted.take(sorted@.len() as int)),
            sorted@.len() + raw@.len() == full_sorted.len(),
            spec_sorted_problems(rem_ms) == full_sorted.skip(sorted@.len() as int),
            forall|q: int| 0 <= q < raw@.len()
                ==> -400_000_000 <= (#[trigger] raw@[q]).avg_millicents <= 400_000_000,
            forall|q: int| 0 <= q < sorted@.len()
                ==> -400_000_000 <= (#[trigger] sorted@[q]).avg_millicents <= 400_000_000,
        decreases raw@.len(),
    {
        let ghost rem = rem_ms;
        let ghost done: int = sorted@.len() as int;
        let mut b: usize = 0;
        let mut k: usize = 1;
        while k < raw.len()
            invariant
                1 <= k <= raw@.len(),
                raw@.len() > 0,
                b < k,
                problems_match(raw@, rem),
                rem == rem_ms,
                b as int == best_problem_in_prefix(rem, k as int),
            decreases raw@.len() - k,
        {
            let cand_abs: u64 = abs_i64(raw[k].avg_millicents);
            let best_abs: u64 = abs_i64(raw[b].avg_millicents);
            if cand_abs > best_abs {
                b = k;
            }
            k = k + 1;
        }
        proof {
            assert(b as int == best_problem_in_prefix(rem, rem.len() as int));
            assert(spec_sorted_problems(rem) == seq![rem[b as int]]
                + spec_sorted_problems(rem.remove(b as int)));
            assert(full_sorted[done] == rem[b as int]) by {
                assert(full_sorted.skip(done)[0] == full_sorted[done]);
            }
        }
        let ghost pre_raw = raw@;
        let item = raw.remove(b);
        sorted.push(item);
        proof {
            rem_ms = rem.remove(b as int);
            pre_raw.remove_ensures(b as int);
            rem.remove_ensures(b as int);
            assert(problems_match(raw@, rem_ms));
            assert(problems_match(sorted@, full_sorted.take(done + 1))) by {
                assert(sorted@.drop_last() =~= sorted@.take(done));
                assert(forall|q: int| 0 <= q < done
                    ==> #[trigger] sorted@[q] == sorted@.drop_last()[q]);
                assert(sorted@[done] == item);
                assert(item == pre_raw[b as int]);
                assert(forall|q: int| 0 <= q < done + 1
                    ==> #[trigger] full_sorted.take(done + 1)[q] == full_sorted[q]);
                assert(forall|q: int| 0 <= q < done
                    ==> #[trigger] full_sorted.take(done)[q] == full_sorted[q]);
            }
            assert(spec_sorted_problems(rem_ms) =~= full_sorted.skip(done + 1)) by {
                assert(full_sorted.skip(done).drop_first() =~= full_sorted.skip(done + 1));
            }
        }
    }
    proof {
        if raw@.len() == 0 {
            assert(full_sorted.take(sorted@.len() as int) =~= full_sorted);
        }
        if full_sorted.len() > 3 {
            assert(sorted@.len() == 3);
        }
    }
    sorted
}

/// Absolute value of an `i64`, as an unsigned magnitude.
fn abs_i64(v: i64) -> (r: u64)
    ensures
        r == abs_int(v as int),
{
    if v >= 0 {
        v as u64
    } else {
        (-(v as i128)) as u64
    }
}

/// How many reported problems name the pair `(from, to)`.
pub open spec fn count_pair(ps: Seq<ProblemModel>, from: int, to: int) -> int
    decreases ps.len(),
{
    if ps.len() == 0 {
        0
    } else {
        (if ps[0].from == from && ps[0].to == to {
            1int
        } else {
            0int
        }) + count_pair(ps.drop_first(), from, to)
    }
}

/// A one-entry list counts its entry alone.
proof fn lemma_count_pair_singleton(m: ProblemModel, f: int, t: int)
    ensures
        count_pair(seq![m], f, t) == (if m.from == f && m.to == t {
            1int
        } else {
            0int
        }),
{
    reveal_with_fuel(count_pair, 3);
    assert(seq![m].drop_first() =~= Seq::<ProblemModel>::empty());
}

/// Pair counts add over concatenation.
proof fn lemma_count_pair_concat(a: Seq<ProblemModel>, b: Seq<ProblemModel>, f: int, t: int)
    ensures
        count_pair(a + b, f, t) == count_pair(a, f, t) + count_pair(b, f, t),
    decreases a.len(),
{
    if a.len() == 0 {
        assert(a + b =~= b);
    } else {
        assert((a + b).drop_first() =~= a.drop_first() + b);
        lemma_count_pair_concat(a.drop_first(), b, f, t);
    }
}

/// Removing one entry removes exactly its contribution to the pair count.
proof fn lemma_count_pair_remove(ps: Seq<ProblemModel>, b: int, f: int, t: int)
    requires
        0 <= b < ps.len(),
    ensures
        count_pair(ps, f, t) == count_pair(ps.remove(b), f, t) + (if ps[b].from == f
            && ps[b].to == t {
            1int
        } else {
            0int
        }),
{
    assert(ps =~= ps.take(b) + (seq![ps[b]] + ps.skip(b + 1)));
    lemma_count_pair_concat(ps.take(b), seq![ps[b]] + ps.skip(b + 1), f, t);
    lemma_count_pair_concat(seq![ps[b]], ps.skip(b + 1), f, t);
    lemma_count_pair_singleton(ps[b], f, t);
    assert(ps.remove(b) =~= ps.take(b) + ps.skip(b + 1));
    lemma_count_pair_concat(ps.take(b), ps.skip(b + 1), f, t);
}

/// Ranking does not change how often a pair is reported.
proof fn lemma_sorted_count_pair(ps: Seq<ProblemModel>, f: int, t: int)
    ensures
        count_pair(spec_sorted_problems(ps), f, t) == count_pair(ps, f, t),
    decreases ps.len(),
{
    if ps.len() > 0 {
        let b = best_problem_in_prefix(ps, ps.len() as int);
        lemma_best_in_range(ps, ps.len() as int);
        ps.remove_ensures(b);
        lemma_sorted_count_pair(ps.remove(b), f, t);
        lemma_count_pair_concat(seq![ps[b]], spec_sorted_problems(ps.remove(b)), f, t);
        lemma_count_pair_singleton(ps[b], f, t);
        lemma_count_pair_remove(ps, b, f, t);
    }
}

/// No two groups carry the same pitch pair.
pub open spec fn distinct_keys(gs: Seq<IntervalGroup>) -> bool {
    forall|i: int, j: int| 0 <= i < j < gs.len()
        ==> !((#[trigger] gs[i]).from == (#[trigger] gs[j]).from && gs[i].to == gs[j].to)
}

/// A failed search means no group holds the pair from the scan point on.
proof fn lemma_find_none(gs: Seq<IntervalGroup>, f: int, t: int, i: int)
    requires
        find_group_from(gs, f, t, i) is None,
        0 <= i,
    ensures
        forall|j: int| i <= j < gs.len()
            ==> !((#[trigger] gs[j]).from == f && gs[j].to == t),
    decreases gs.len() - i,
{
    if i < gs.len() {
        lemma_find_none(gs, f, t, i + 1);
    }
}

/// A successful search returns the first group with the pair.
proof fn lemma_find_some(gs: Seq<IntervalGroup>, f: int, t: int, i: int)
    requires
        0 <= i,
        find_group_from(gs, f, t, i) is Some,
    ensures
        ({
            let b = find_group_from(gs, f, t, i)->Some_0;
            &&& i <= b < gs.len()
            &&& gs[b].from == f && gs[b].to == t
            &&& forall|j: int| i <= j < b
                ==> !((#[trigger] gs[j]).from == f && gs[j].to == t)
        }),
    decreases gs.len() - i,
{
    if i < gs.len() && !(gs[i].from == f && gs[i].to == t) {
        lemma_find_some(gs, f, t, i + 1);
    }
}

/// Folding in one error keeps the group keys distinct.
proof fn lemma_add_error_distinct(gs: Seq<IntervalGroup>, f: int, t: int, err: int)
    requires
        distinct_keys(gs),
    ensures
        distinct_keys(add_error(gs, f, t, err)),
{
    match find_group_from(gs, f, t, 0) {
        Option::Some(i) => {
            let upd = gs.update(
                i,
                IntervalGroup { from: f, to: t, sum: gs[i].sum + err, count: gs[i].count + 1 },
            );
            lemma_find_some(gs, f, t, 0);
            assert(forall|j: int| 0 <= j < gs.len() ==> ((#[trigger] upd[j]).from == gs[j].from
                && upd[j].to == gs[j].to));
        }
        Option::None => {
            lemma_find_none(gs, f, t, 0);
        }
    }
}

/// The group list of any result prefix keeps its keys distinct.
pub proof fn lemma_groups_distinct(rs: Seq<NoteResult>, tol_cents: int, k: int)
    ensures
        distinct_keys(spec_groups(rs, tol_cents, k)),
    decreases k,
{
    if k > 1 {
        lemma_groups_distinct(rs, tol_cents, k - 1);
        if pair_qualifies(rs, k - 1, tol_cents) {
            lemma_add_error_distinct(
                spec_groups(rs, tol_cents, k - 1),
                rs[k - 2].target_midi as int,
                rs[k - 1].target_midi as int,
                err_of(rs[k - 1]),
            );
        }
    }
}

/// Pair count over the qualifying list, when no group holds the pair.
proof fn lemma_qualifying_absent(gs: Seq<IntervalGroup>, f: int, t: int)
    requires
        forall|j: int| 0 <= j < gs.len()
            ==> !((#[trigger] gs[j]).from == f && gs[j].to == t),
    ensures
        count_pair(qualifying(gs), f, t) == 0,
    decreases gs.len(),
{
    if gs.len() > 0 {
        assert(forall|j: int| 0 <= j < gs.drop_last().len()
            ==> !((#[trigger] gs.drop_last()[j]).from == f && gs.drop_last()[j].to == t));
        lemma_qualifying_absent(gs.drop_last(), f, t);
        let prev = qualifying(gs.drop_last());
        let g = gs.last();
        if g.count >= 2 && abs_int(div_trunc(g.sum, g.count)) > 20_000 {
            let m = ProblemModel {
                from: g.from,
                to: g.to,
                avg: div_trunc(g.sum, g.count),
                count: g.count,
            };
            lemma_count_pair_concat(prev, seq![m], f, t);
            lemma_count_pair_singleton(m, f, t);
            assert(prev.push(m) =~= prev + seq![m]);
        }
    }
}

/// With distinct keys, the qualifying list reports a pair exactly when its
/// group recurs with a large mean error, and then exactly once.
proof fn lemma_qualifying_pair(gs: Seq<IntervalGroup>, f: int, t: int, i: int)
    requires
        distinct_keys(gs),
        0 <= i < gs.len(),
        gs[i].from == f && gs[i].to == t,
    ensures
        count_pair(qualifying(gs), f, t) == (if gs[i].count >= 2
            && abs_int(div_trunc(gs[i].sum, gs[i].count)) > 20_000 {
            1int
        } else {
            0int
        }),
    decreases gs.len(),
{
    let prev = qualifying(gs.drop_last());
    let g = gs.last();
    if i == gs.len() - 1 {
        assert(forall|j: int| 0 <= j < gs.drop_last().len()
            ==> !((#[trigger] gs.drop_last()[j]).from == f && gs.drop_last()[j].to == t));
        lemma_qualifying_absent(gs.drop_last(), f, t);
        if g.count >= 2 && abs_int(div_trunc(g.sum, g.count)) > 20_000 {
            let m = ProblemModel {
                from: g.from,
                to: g.to,
                avg: div_trunc(g.sum, g.count),
                count: g.count,
            };
            assert(prev.push(m) =~= prev + seq![m]);
            lemma_count_pair_concat(prev, seq![m], f, t);
            lemma_count_pair_singleton(m, f, t);
        }
    } else {
        assert(distinct_keys(gs.drop_last()));
        assert(gs.drop_last()[i] == gs[i]);
        lemma_qualifying_pair(gs.drop_last(), f, t, i);
        assert(!(g.from == f && g.to == t));
        if g.count >= 2 && abs_int(div_trunc(g.sum, g.count)) > 20_000 {
            let m = ProblemModel {
                from: g.from,
                to: g.to,
                avg: div_trunc(g.sum, g.count),
                count: g.count,
            };
            assert(prev.push(m) =~= prev + seq![m]);
            lemma_count_pair_concat(prev, seq![m], f, t);
            lemma_count_pair_singleton(m, f, t);
        }
    }
}

/// How often the consecutive-pair rule fires for one pitch pair among the
/// first `k` results.
pub open spec fn pair_occurrences(rs: Seq<NoteResult>, tol_cents: int, f: int, t: int, k: int)
    -> int
    decreases k,
{
    if k <= 1 {
        0
    } else {
        pair_occurrences(rs, tol_cents, f, t, k - 1) + (if pair_qualifies(rs, k - 1, tol_cents)
            && rs[k - 2].target_midi == f && rs[k - 1].target_midi == t {
            1int
        } else {
            0int
        })
    }
}

/// The summed error the rule accumulates for one pitch pair.
pub open spec fn pair_error_sum(rs: Seq<NoteResult>, tol_cents: int, f: int, t: int, k: int)
    -> int
    decreases k,
{
    if k <= 1 {
        0
    } else {
        pair_error_sum(rs, tol_cents, f, t, k - 1) + (if pair_qualifies(rs, k - 1, tol_cents)
            && rs[k - 2].target_midi == f && rs[k - 1].target_midi == t {
            err_of(rs[k - 1])
        } else {
            0int
        })
    }
}

/// The group list tallies each pair exactly: its group exists exactly when
/// the rule fired for it, with the fired count and summed error.
pub proof fn lemma_groups_tally(rs: Seq<NoteResult>, tol_cents: int, f: int, t: int, k: int)
    ensures
        ({
            let gs = spec_groups(rs, tol_cents, k);
            match find_group_from(gs, f, t, 0) {
                Option::Some(i) => 0 <= i < gs.len() && gs[i].from == f && gs[i].to == t
                    && gs[i].count == pair_occurrences(rs, tol_cents, f, t, k)
                    && gs[i].sum == pair_error_sum(rs, tol_cents, f, t, k)
                    && gs[i].count > 0,
                Option::None => pair_occurrences(rs, tol_cents, f, t, k) == 0
                    && pair_error_sum(rs, tol_cents, f, t, k) == 0,
            }
        }),
    decreases k,
{
    if k > 1 {
        lemma_groups_tally(rs, tol_cents, f, t, k - 1);
        let prev = spec_groups(rs, tol_cents, k - 1);
        let gs = spec_groups(rs, tol_cents, k);
        assert(pair_occurrences(rs, tol_cents, f, t, k)
            == pair_occurrences(rs, tol_cents, f, t, k - 1)
            + (if pair_qualifies(rs, k - 1, tol_cents) && rs[k - 2].target_midi == f
                && rs[k - 1].target_midi == t {
                1int
            } else {
                0int
            }));
        assert(pair_error_sum(rs, tol_cents, f, t, k)
            == pair_error_sum(rs, tol_cents, f, t, k - 1)
            + (if pair_qualifies(rs, k - 1, tol_cents) && rs[k - 2].target_midi == f
                && rs[k - 1].target_midi == t {
                err_of(rs[k - 1])
            } else {
                0int
            }));
        let post = |gsx: Seq<IntervalGroup>| match find_group_from(gsx, f, t, 0) {
            Option::Some(i) => 0 <= i < gsx.len() && gsx[i].from == f && gsx[i].to == t
                && gsx[i].count == pair_occurrences(rs, tol_cents, f, t, k)
                && gsx[i].sum == pair_error_sum(rs, tol_cents, f, t, k)
                && gsx[i].count > 0,
            Option::None => pair_occurrences(rs, tol_cents, f, t, k) == 0
                && pair_error_sum(rs, tol_cents, f, t, k) == 0,
        };
        if pair_qualifies(rs, k - 1, tol_cents) {
            let pf = rs[k - 2].target_midi as int;
            let pt = rs[k - 1].target_midi as int;
            let e = err_of(rs[k - 1]);
            if pf == f && pt == t {
                match find_group_from(prev, f, t, 0) {
                    Option::Some(i) => {
                        lemma_find_some(prev, f, t, 0);
                        let upd = prev.update(
                            i,
                            IntervalGroup {
                                from: f,
                                to: t,
                                sum: prev[i].sum + e,
                                count: prev[i].count + 1,
                            },
                        );
                        assert(gs == upd);
                        lemma_find_prefix_stable(prev, upd, f, t, 0, i);
                        assert(find_group_from(gs, f, t, 0) == Some(i));
                        assert(post(gs));
                    }
                    Option::None => {
                        lemma_find_none(prev, f, t, 0);
                        let pushed = prev.push(
                            IntervalGroup { from: f, to: t, sum: e, count: 1 });
                        assert(gs == pushed);
                        lemma_find_push_new(
                            prev, f, t, 0, IntervalGroup { from: f, to: t, sum: e, count: 1 });
                        assert(post(gs));
                    }
                }
            } else {
                match find_group_from(prev, pf, pt, 0) {
                    Option::Some(i) => {
                        lemma_find_some(prev, pf, pt, 0);
                        let upd = prev.update(
                            i,
                            IntervalGroup {
                                from: pf,
                                to: pt,
                                sum: prev[i].sum + e,
                                count: prev[i].count + 1,
                            },
                        );
                        assert(gs == upd);
                        lemma_find_other_update(prev, upd, f, t, 0);
                        match find_group_from(prev, f, t, 0) {
                            Option::Some(i1) => {
                                lemma_find_some(prev, f, t, 0);
                                assert(i1 != i);
                                assert(upd[i1] == prev[i1]);
                            }
                            Option::None => {}
                        }
                        assert(post(gs));
                    }
                    Option::None => {
                        let pushed = prev.push(
                            IntervalGroup { from: pf, to: pt, sum: e, count: 1 });
                        assert(gs == pushed);
                        lemma_find_push_other(prev, f, t, pf, pt, e, 0);
                        match find_group_from(prev, f, t, 0) {
                            Option::Some(i1) => {
                                lemma_find_some(prev, f, t, 0);
                                assert(pushed[i1] == prev[i1]);
                            }
                            Option::None => {}
                        }
                        assert(post(gs));
                    }
                }
            }
        } else {
            assert(gs == prev);
            assert(post(gs));
        }
    }
}

/// Updating a group in place, key unchanged, leaves the search for that
/// key landing on the same index.
proof fn lemma_find_prefix_stable(
    gs: Seq<IntervalGroup>,
    upd: Seq<IntervalGroup>,
    f: int,
    t: int,
    start: int,
    i: int,
)
    requires
        0 <= start,
        upd.len() == gs.len(),
        start <= i < gs.len(),
        find_group_from(gs, f, t, start) == Some(i),
        forall|j: int| 0 <= j < gs.len() ==> ((#[trigger] upd[j]).from == gs[j].from
            && upd[j].to == gs[j].to),
    ensures
        find_group_from(upd, f, t, start) == Some(i),
    decreases gs.len() - start,
{
    lemma_find_some(gs, f, t, start);
    if start < gs.len() && !(gs[start].from == f && gs[start].to == t) {
        lemma_find_prefix_stable(gs, upd, f, t, start + 1, i);
    }
}

/// Appending a group with the searched key to a list without it makes the
/// search land on the new last slot.
proof fn lemma_find_push_new(
    gs: Seq<IntervalGroup>,
    f: int,
    t: int,
    start: int,
    g: IntervalGroup,
)
    requires
        0 <= start <= gs.len(),
        find_group_from(gs, f, t, start) is None,
        g.from == f && g.to == t,
    ensures
        find_group_from(gs.push(g), f, t, start) == Some(gs.len() as int),
    decreases gs.len() - start,
{
    let pushed = gs.push(g);
    if start < gs.len() {
        lemma_find_push_new(gs, f, t, start + 1, g);
    } else {
        assert(pushed[start] == g);
        assert(find_group_from(pushed, f, t, start) == Some(start));
    }
}

/// A keys-preserving rewrite leaves every search outcome unchanged.
proof fn lemma_find_other_update(
    gs: Seq<IntervalGroup>,
    upd: Seq<IntervalGroup>,
    f: int,
    t: int,
    start: int,
)
    requires
        0 <= start,
        upd.len() == gs.len(),
        forall|j: int| 0 <= j < gs.len() ==> ((#[trigger] upd[j]).from == gs[j].from
            && upd[j].to == gs[j].to),
    ensures
        find_group_from(upd, f, t, start) == find_group_from(gs, f, t, start),
    decreases gs.len() - start,
{
    if start < gs.len() && !(gs[start].from == f && gs[start].to == t) {
        lemma_find_other_update(gs, upd, f, t, start + 1);
    }
}

/// Appending a differently-keyed group leaves a key's search outcome.
proof fn lemma_find_push_other(
    gs: Seq<IntervalGroup>,
    f: int,
    t: int,
    pf: int,
    pt: int,
    e: int,
    start: int,
)
    requires
        0 <= start,
        !(pf == f && pt == t),
    ensures
        ({
            let pushed = gs.push(IntervalGroup { from: pf, to: pt, sum: e, count: 1 });
            match find_group_from(gs, f, t, start) {
                Option::Some(i) => find_group_from(pushed, f, t, start) == Some(i),
                Option::None => find_group_from(pushed, f, t, start) is None,
            }
        }),
    decreases gs.len() - start,
{
    let pushed = gs.push(IntervalGroup { from: pf, to: pt, sum: e, count: 1 });
    if start < gs.len() {
        if !(gs[start].from == f && gs[start].to == t) {
            lemma_find_push_other(gs, f, t, pf, pt, e, start + 1);
        }
    } else {
        if start == gs.len() {
            assert(find_group_from(pushed, f, t, start + 1) is None);
        }
    }
}

/// Each pitch pair appears at most once among the reported problems.
pub proof fn lemma_problems_unique(rs: Seq<NoteResult>, tol_cents: int, f: int, t: int)
    ensures
        count_pair(spec_problems(rs, tol_cents), f, t) <= 1,
{
    let gs = spec_groups(rs, tol_cents, rs.len() as int);
    lemma_groups_distinct(rs, tol_cents, rs.len() as int);
    let q = qualifying(gs);
    match find_group_from(gs, f, t, 0) {
        Option::Some(i) => {
            lemma_find_some(gs, f, t, 0);
            lemma_qualifying_pair(gs, f, t, i);
        }
        Option::None => {
            lemma_find_none(gs, f, t, 0);
            lemma_qualifying_absent(gs, f, t);
        }
    }
    lemma_sorted_count_pair(q, f, t);
    let sorted = spec_sorted_problems(q);
    if sorted.len() > 3 {
        lemma_take_count_pair(sorted, 3, f, t);
    }
}

/// Cutting a list only lowers a pair's count.
proof fn lemma_take_count_pair(ps: Seq<ProblemModel>, k: int, f: int, t: int)
    requires
        0 <= k <= ps.len(),
    ensures
        count_pair(ps.take(k), f, t) <= count_pair(ps, f, t),
        0 <= count_pair(ps.take(k), f, t),
{
    assert(ps =~= ps.take(k) + ps.skip(k));
    lemma_count_pair_concat(ps.take(k), ps.skip(k), f, t);
    lemma_count_pair_nonneg(ps.skip(k), f, t);
    lemma_count_pair_nonneg(ps.take(k), f, t);
}

/// A pair count is never negative.
proof fn lemma_count_pair_nonneg(ps: Seq<ProblemModel>, f: int, t: int)
    ensures
        count_pair(ps, f, t) >= 0,
    decreases ps.len(),
{
    if ps.len() > 0 {
        lemma_count_pair_nonneg(ps.drop_first(), f, t);
    }
}

/// A melodic jump the rule fired for at most once is never reported as a
/// problem interval.
pub proof fn lemma_single_slip_not_reported(
    rs: Seq<NoteResult>,
    tol_cents: int,
    f: int,
    t: int,
)
    requires
        pair_occurrences(rs, tol_cents, f, t, rs.len() as int) <= 1,
    ensures
        count_pair(spec_problems(rs, tol_cents), f, t) == 0,
{
    let gs = spec_groups(rs, tol_cents, rs.len() as int);
    lemma_groups_distinct(rs, tol_cents, rs.len() as int);
    lemma_groups_tally(rs, tol_cents, f, t, rs.len() as int);
    let q = qualifying(gs);
    match find_group_from(gs, f, t, 0) {
        Option::Some(i) => {
            lemma_find_some(gs, f, t, 0);
            lemma_qualifying_pair(gs, f, t, i);
            assert(gs[i].count <= 1);
        }
        Option::None => {
            lemma_find_none(gs, f, t, 0);
            lemma_qualifying_absent(gs, f, t);
        }
    }
    lemma_sorted_count_pair(q, f, t);
    let sorted = spec_sorted_problems(q);
    lemma_count_pair_nonneg(q, f, t);
    if sorted.len() > 3 {
        lemma_take_count_pair(sorted, 3, f, t);
    }
}

/// A melodic jump the rule fired for at least twice, with a mean absolute
/// error beyond twenty cents, is reported exactly once — as long as no
/// more than three problems qualified, so the top-three cut drops nothing.
pub proof fn lemma_repeated_slip_reported(
    rs: Seq<NoteResult>,
    tol_cents: int,
    f: int,
    t: int,
)
    requires
        pair_occurrences(rs, tol_cents, f, t, rs.len() as int) >= 2,
        abs_int(div_trunc(
            pair_error_sum(rs, tol_cents, f, t, rs.len() as int),
            pair_occurrences(rs, tol_cents, f, t, rs.len() as int),
        )) > 20_000,
        qualifying(spec_groups(rs, tol_cents, rs.len() as int)).len() <= 3,
    ensures
        count_pair(spec_problems(rs, tol_cents), f, t) == 1,
{
    let gs = spec_groups(rs, tol_cents, rs.len() as int);
    lemma_groups_distinct(rs, tol_cents, rs.len() as int);
    lemma_groups_tally(rs, tol_cents, f, t, rs.len() as int);
    let q = qualifying(gs);
    match find_group_from(gs, f, t, 0) {
        Option::Some(i) => {
            lemma_find_some(gs, f, t, 0);
            lemma_qualifying_pair(gs, f, t, i);
        }
        Option::None => {
            assert(false);
        }
    }
    lemma_sorted_count_pair(q, f, t);
    lemma_sorted_len(q);
    let sorted = spec_sorted_problems(q);
    assert(sorted.len() <= 3);
}

} // verus!
