//! Pitch detection over fixed-point audio frames: the YIN detector, which
//! turns a frame into a fundamental frequency and a confidence.
//!
//! Samples are `i32` with full scale 1.0 == 32768 and are clamped to twice
//! full scale before analysis; frequencies come back in milli-hertz and
//! confidences in micro units of the unit interval. The normalized
//! difference curve (CMND) is quantized to micro units, so every
//! threshold of the algorithm is an exact integer comparison.

use vstd::prelude::*;
use crate::num::{abs_int, div_trunc, div_trunc_i64};
use crate::technique::{sum_ints, sum_sq_dev, lemma_sum_ints_bound, lemma_sum_sq_dev_bound};

verus! {

/// Fixed-point value of a full-scale 1.0 sample.
pub const SAMPLE_UNIT: i32 = 32768;

/// Magnitude samples are clamped to before analysis: twice full scale.
pub const SAMPLE_CLAMP: i32 = 65536;

/// Longest frame the detector analyzes; longer frames read as unpitched.
pub const MAX_FRAME: usize = 0x0800_0000;

/// Scale of the quantized CMND curve: 1.0 == 1_000_000.
pub const CMND_SCALE: u64 = 1_000_000;

/// CMND dip threshold of 0.15, in micro units.
pub const YIN_THRESHOLD_MICRO: u64 = 150_000;

/// One detected pitch: frequency in milli-hertz, confidence in micro
/// units; both zero for silence or unpitched input.
#[derive(Clone, Copy, Debug, PartialEq, Eq, Structural)]
pub struct PitchResult {
    pub hz_milli: u64,
    pub confidence_micro: u32,
}

/// The estimate standing for silence or unpitched input.
pub open spec fn silence_spec() -> PitchResult {
    PitchResult { hz_milli: 0, confidence_micro: 0 }
}

impl PitchResult {
    /// The silence sentinel: no frequency, no confidence.
    pub fn silence() -> (r: Self)
        ensures
            r == silence_spec(),
    {
        PitchResult { hz_milli: 0, confidence_micro: 0 }
    }
}

/// One sample clamped to twice full scale.
pub open spec fn clamp1(x: i32) -> i32 {
    if x > SAMPLE_CLAMP {
        SAMPLE_CLAMP
    } else if x < -SAMPLE_CLAMP {
        (-SAMPLE_CLAMP) as i32
    } else {
        x
    }
}

/// The frame with every sample clamped.
pub open spec fn clamp_seq(s: Seq<i32>) -> Seq<i32> {
    Seq::new(s.len(), |i: int| clamp1(s[i]))
}

/// The frame's samples as spec integers.
pub open spec fn int_seq(s: Seq<i32>) -> Seq<int> {
    Seq::new(s.len(), |i: int| s[i] as int)
}

/// Mean sample value, truncating toward zero.
pub open spec fn frame_mean(s: Seq<i32>) -> int
    recommends
        s.len() > 0,
{
    div_trunc(sum_ints(int_seq(s)), s.len() as int)
}

/// Partial difference function: sum over the first `j` positions of the
/// squared difference between the frame and itself shifted by `tau`.
pub open spec fn diff_partial(s: Seq<i32>, tau: int, j: int) -> int
    decreases j,
{
    if j <= 0 {
        0
    } else {
        diff_partial(s, tau, j - 1) + (s[j - 1] - s[j - 1 + tau]) * (s[j - 1] - s[j - 1 + tau])
    }
}

/// YIN difference function at lag `tau`, over the first half of the frame.
pub open spec fn diff_at(s: Seq<i32>, tau: int) -> int {
    diff_partial(s, tau, s.len() as int / 2)
}

/// Running sum of the difference function over lags `1 ..= tau`.
pub open spec fn dsum(s: Seq<i32>, tau: int) -> int
    decreases tau,
{
    if tau <= 0 {
        0
    } else {
        dsum(s, tau - 1) + diff_at(s, tau)
    }
}

/// Quantized cumulative mean normalized difference: 1.0 at lag zero, and
/// `d(tau) * tau / sum` in micro units elsewhere, 1.0 when the running sum
/// is still zero.
pub open spec fn cmnd_q(s: Seq<i32>, tau: int) -> int {
    if tau <= 0 {
        CMND_SCALE as int
    } else if dsum(s, tau) <= 0 {
        CMND_SCALE as int
    } else {
        diff_at(s, tau) * tau * (CMND_SCALE as int) / dsum(s, tau)
    }
}

/// From a lag below the dip threshold, walk forward to the bottom of the
/// valley: the last lag of the strictly decreasing run.
pub open spec fn valley_bottom(s: Seq<i32>, t: int, hi: int) -> int
    decreases hi - t,
{
    if t + 1 <= hi && cmnd_q(s, t + 1) < cmnd_q(s, t) {
        valley_bottom(s, t + 1, hi)
    } else {
        t
    }
}

/// The first lag in `[lo, hi]` whose CMND dips below the threshold,
/// settled to its valley bottom; zero when no lag dips.
pub open spec fn first_dip(s: Seq<i32>, lo: int, hi: int) -> int
    decreases hi - lo + 1,
{
    if lo > hi {
        0
    } else if cmnd_q(s, lo) < YIN_THRESHOLD_MICRO as int {
        valley_bottom(s, lo, hi)
    } else {
        first_dip(s, lo + 1, hi)
    }
}

/// The lag of the smallest CMND value, scanning `[i, hi]` with `best` as
/// the best lag so far; the earliest lag wins ties.
pub open spec fn argmin_from(s: Seq<i32>, i: int, hi: int, best: int) -> int
    decreases hi - i + 1,
{
    if i > hi {
        best
    } else if cmnd_q(s, i) < cmnd_q(s, best) {
        argmin_from(s, i + 1, hi, i)
    } else {
        argmin_from(s, i + 1, hi, best)
    }
}

/// Truncating division for any nonzero divisor, as the parabolic step uses.
pub open spec fn div_trunc2(a: int, b: int) -> int {
    if b == 0 {
        0
    } else if (a >= 0) == (b >= 0) {
        abs_int(a) / abs_int(b)
    } else {
        -(abs_int(a) / abs_int(b))
    }
}

/// The refined lag in milli-lags: parabolic interpolation around `best`
/// when it has both neighbors in range and the parabola is not degenerate,
/// the integer lag otherwise.
pub open spec fn refined_lag_milli(s: Seq<i32>, best: int, max_lag: int) -> int {
    if 0 < best && best < max_lag {
        let alpha = cmnd_q(s, best - 1);
        let beta = cmnd_q(s, best);
        let gamma = cmnd_q(s, best + 1);
        let denom = 2 * (2 * beta - alpha - gamma);
        if denom != 0 {
            best * 1000 + div_trunc2((alpha - gamma) * 1000, denom)
        } else {
            best * 1000
        }
    } else {
        best * 1000
    }
}

/// The whole YIN pipeline over a raw frame: silence gate, lag range,
/// difference curve, first-dip-then-global-minimum lag choice, parabolic
/// refinement, and the final frequency and confidence.
pub open spec fn spec_detect_yin(s: Seq<i32>, sr: int) -> PitchResult {
    if s.len() < 2 || s.len() > MAX_FRAME || sr <= 0 {
        silence_spec()
    } else {
        let c = clamp_seq(s);
        let mean = frame_mean(c);
        let energy = sum_sq_dev(int_seq(c), mean);
        if 2500 * energy < (s.len() as int) * 1_073_741_824 {
            silence_spec()
        } else {
            let min_lag = (sr + 1199) / 1200;
            let half = s.len() as int / 2;
            let max_lag = if sr / 80 <= half {
                sr / 80
            } else {
                half
            };
            if min_lag >= max_lag || max_lag < 2 {
                silence_spec()
            } else {
                let dip = first_dip(c, min_lag, max_lag);
                let best = if dip == 0 {
                    argmin_from(c, min_lag + 1, max_lag, min_lag)
                } else {
                    dip
                };
                if dip == 0 && cmnd_q(c, best) > 500_000 {
                    silence_spec()
                } else {
                    let refined = refined_lag_milli(c, best, max_lag);
                    if refined <= 0 {
                        silence_spec()
                    } else {
                        let conf = (CMND_SCALE as int) - (if cmnd_q(c, best)
                            >= CMND_SCALE as int {
                            CMND_SCALE as int
                        } else {
                            cmnd_q(c, best)
                        });
                        PitchResult {
                            hz_milli: (sr * 1_000_000 / refined) as u64,
                            confidence_micro: conf as u32,
                        }
                    }
                }
            }
        }
    }
}

/// An all-zero frame always reads as silence, whatever its length.
pub proof fn lemma_zero_frame_silent(s: Seq<i32>, sr: int)
    requires
        forall|i: int| 0 <= i < s.len() ==> s[i] == 0,
    ensures
        spec_detect_yin(s, sr) == silence_spec(),
{
    if s.len() < 2 || s.len() > MAX_FRAME || sr <= 0 {
    } else {
        let c = clamp_seq(s);
        assert(forall|i: int| 0 <= i < int_seq(c).len()
            ==> #[trigger] int_seq(c)[i] == 0);
        lemma_sum_ints_bound(int_seq(c), 0);
        crate::num::lemma_div_trunc_bound(sum_ints(int_seq(c)), s.len() as int, 0);
        let mean = frame_mean(c);
        assert(mean == 0);
        assert(forall|i: int| 0 <= i < int_seq(c).len()
            ==> 0 <= #[trigger] int_seq(c)[i] - mean <= 0);
        lemma_sum_sq_dev_bound(int_seq(c), mean, 0);
        assert(sum_sq_dev(int_seq(c), mean) == 0);
        assert(2500 * sum_sq_dev(int_seq(c), mean) < (s.len() as int) * 1_073_741_824);
    }
}

/// Detect the fundamental frequency of a frame with the YIN algorithm:
/// silence gate on the RMS, normalized difference curve, first dip below
/// the clarity threshold (or the global minimum under a laxer ceiling),
/// and parabolic refinement. Degenerate input of any kind reads as
/// silence, never as an error.
#[verifier::rlimit(100)]
pub fn detect_pitch_yin(samples: &[i32], sample_rate: u32) -> (r: PitchResult)
    ensures
        r == spec_detect_yin(samples@, sample_rate as int),
        (forall|i: int| 0 <= i < samples@.len() ==> samples@[i] == 0)
            ==> r == silence_spec(),
{
    proof {
        if forall|i: int| 0 <= i < samples@.len() ==> samples@[i] == 0 {
            lemma_zero_frame_silent(samples@, sample_rate as int);
        }
    }
    if samples.len() < 2 || samples.len() > MAX_FRAME || sample_rate == 0 {
        return PitchResult::silence();
    }
    let n: usize = samples.len();
    let ghost raw = samples@;

    // Clamp the frame to twice full scale.
    let mut c: Vec<i32> = Vec::new();
    let mut i: usize = 0;
    while i < n
        invariant
            i <= n,
            n == raw.len(),
            raw == samples@,
            c@ =~= clamp_seq(raw).take(i as int),
            forall|q: int| 0 <= q < i ==> -SAMPLE_CLAMP <= #[trigger] c@[q] <= SAMPLE_CLAMP,
        decreases n - i,
    {
        let x = samples[i];
        let v: i32 = if x > SAMPLE_CLAMP {
            SAMPLE_CLAMP
        } else if x < -SAMPLE_CLAMP {
            -SAMPLE_CLAMP
        } else {
            x
        };
        c.push(v);
        i = i + 1;
    }
    proof {
        assert(c@ =~= clamp_seq(raw));
    }
    let ghost cs = c@;
    let ghost ci = int_seq(cs);

    // Silence gate: RMS of the mean-centered frame against 0.02 full scale.
    let mut sum: i64 = 0;
    let mut i: usize = 0;
    while i < n
        invariant
            i <= n,
            n == cs.len(),
            n <= MAX_FRAME,
            cs == c@,
            ci == int_seq(cs),
            forall|q: int| 0 <= q < cs.len()
                ==> -SAMPLE_CLAMP <= #[trigger] cs[q] <= SAMPLE_CLAMP,
            sum == sum_ints(ci.take(i as int)),
            -65_536 * (i as int) <= sum <= 65_536 * (i as int),
        decreases n - i,
    {
        proof {
            assert(ci.take(i + 1).drop_last() =~= ci.take(i as int));
            assert(ci.take(i + 1).last() == ci[i as int]);
        }
        sum = sum + (c[i] as i64);
        i = i + 1;
    }
    proof {
        assert(ci.take(ci.len() as int) =~= ci);
    }
    let mean: i64 = div_trunc_i64(sum, n as u64);
    proof {
        crate::num::lemma_div_trunc_bound(sum as int, n as int, 65_536);
    }
    let mut energy: u128 = 0;
    let mut i: usize = 0;
    while i < n
        invariant
            i <= n,
            n == cs.len(),
            n <= MAX_FRAME,
            cs == c@,
            ci == int_seq(cs),
            forall|q: int| 0 <= q < cs.len()
                ==> -SAMPLE_CLAMP <= #[trigger] cs[q] <= SAMPLE_CLAMP,
            -65_536 <= mean <= 65_536,
            mean == frame_mean(cs),
            energy == sum_sq_dev(ci.take(i as int), mean as int),
            energy <= 17_179_869_184 * (i as int),
        decreases n - i,
    {
        proof {
            assert(ci.take(i + 1).drop_last() =~= ci.take(i as int));
            assert(ci.take(i + 1).last() == ci[i as int]);
        }
        let dev: i64 = (c[i] as i64) - mean;
        proof {
            assert(0 <= (dev as int) * (dev as int) <= 17_179_869_184)
                by (nonlinear_arith)
                requires
                    -131_072 <= dev <= 131_072,
            ;
        }
        energy = energy + ((dev * dev) as u128);
        i = i + 1;
    }
    proof {
        assert(ci.take(ci.len() as int) =~= ci);
    }
    if 2500 * energy < (n as u128) * 1_073_741_824 {
        return PitchResult::silence();
    }

    // Lag range for the search band.
    let min_lag_64: u64 = ((sample_rate as u64) + 1199) / 1200;
    let half: usize = n / 2;
    let lag_cap: u64 = (sample_rate as u64) / 80;
    let max_lag_64: u64 = if lag_cap <= (half as u64) {
        lag_cap
    } else {
        half as u64
    };
    if min_lag_64 >= max_lag_64 || max_lag_64 < 2 {
        return PitchResult::silence();
    }
    let min_lag: usize = min_lag_64 as usize;
    let max_lag: usize = max_lag_64 as usize;
    proof {
        assert(max_lag <= half);
        assert(1 <= min_lag < max_lag);
    }

    // Difference function over the first half of the frame.
    let mut diff: Vec<u64> = Vec::new();
    diff.push(0);
    let mut tau: usize = 1;
    while tau <= max_lag
        invariant
            1 <= tau <= max_lag + 1,
            max_lag <= half,
            half == n / 2,
            n == cs.len(),
            n <= MAX_FRAME,
            cs == c@,
            forall|q: int| 0 <= q < cs.len()
                ==> -SAMPLE_CLAMP <= #[trigger] cs[q] <= SAMPLE_CLAMP,
            diff@.len() == tau,
            forall|k: int| 0 <= k < tau ==> #[trigger] diff@[k] == diff_at(cs, k)
                || (k == 0 && diff@[0] == 0),
            forall|k: int| 1 <= k < tau ==> #[trigger] diff@[k] == diff_at(cs, k),
            forall|k: int| 0 <= k < tau
                ==> #[trigger] diff@[k] <= 17_179_869_184 * (half as int),
        decreases max_lag + 1 - tau,
    {
        let mut s: u64 = 0;
        let mut j: usize = 0;
        while j < half
            invariant
                j <= half,
                half == n / 2,
                1 <= tau <= max_lag,
                max_lag <= half,
                n == cs.len(),
                n <= MAX_FRAME,
                cs == c@,
                forall|q: int| 0 <= q < cs.len()
                    ==> -SAMPLE_CLAMP <= #[trigger] cs[q] <= SAMPLE_CLAMP,
                s == diff_partial(cs, tau as int, j as int),
                s <= 17_179_869_184 * (j as int),
            decreases half - j,
        {
            let d: i64 = (c[j] as i64) - (c[j + tau] as i64);
            proof {
                assert(0 <= (d as int) * (d as int) <= 17_179_869_184)
                    by (nonlinear_arith)
                    requires
                        -131_072 <= d <= 131_072,
                ;
            }
            s = s + ((d * d) as u64);
            j = j + 1;
        }
        diff.push(s);
        tau = tau + 1;
    }

    // Quantized cumulative mean normalized difference.
    let mut cmnd: Vec<u64> = Vec::new();
    cmnd.push(CMND_SCALE);
    let mut running: u128 = 0;
    let mut tau: usize = 1;
    proof {
        assert(cmnd@[0] == cmnd_q(cs, 0));
    }
    while tau <= max_lag
        invariant
            1 <= tau <= max_lag + 1,
            max_lag <= half,
            half == n / 2,
            n <= MAX_FRAME,
            diff@.len() == max_lag + 1,
            forall|k: int| 1 <= k <= max_lag ==> #[trigger] diff@[k] == diff_at(cs, k),
            forall|k: int| 0 <= k <= max_lag
                ==> #[trigger] diff@[k] <= 17_179_869_184 * (half as int),
            half <= 0x0400_0000,
            max_lag <= half,
            cmnd@.len() == tau,
            running == dsum(cs, tau as int - 1),
            running <= 17_179_869_184 * (half as int) * (tau as int - 1),
            forall|k: int| 0 <= k < tau ==> #[trigger] cmnd@[k] == cmnd_q(cs, k),
            forall|k: int| 0 <= k < tau
                ==> #[trigger] cmnd@[k] <= (CMND_SCALE as int) * (if k == 0 {
                    1int
                } else {
                    k
                }),
        decreases max_lag + 1 - tau,
    {
        let d: u64 = diff[tau];
        proof {
            assert(17_179_869_184 * (half as int) * (tau as int - 1) + 17_179_869_184
                * (half as int) == 17_179_869_184 * (half as int) * (tau as int))
                by (nonlinear_arith);
            assert(17_179_869_184 * (half as int) * (tau as int)
                <= 17_179_869_184 * (half as int) * (max_lag as int)) by (nonlinear_arith)
                requires
                    half >= 0,
                    tau <= max_lag,
            ;
            assert(17_179_869_184 * (half as int) * (max_lag as int)
                < 0x1_0000_0000_0000_0000_0000_0000_0000_0000) by (nonlinear_arith)
                requires
                    0 <= half <= 0x0400_0000,
                    0 <= max_lag <= half,
            ;
        }
        running = running + (d as u128);
        proof {
            assert(0 <= (d as int) * (tau as int) * 1_000_000
                < 0x1_0000_0000_0000_0000_0000_0000_0000_0000) by (nonlinear_arith)
                requires
                    0 <= d as int <= 17_179_869_184 * (half as int),
                    0 <= half <= 0x0400_0000,
                    1 <= tau,
                    tau <= max_lag,
                    max_lag <= half,
            ;
        }
        let q: u64 = if running > 0 {
            let num: u128 = (d as u128) * (tau as u128) * (CMND_SCALE as u128);
            proof {
                let r = running as int;
                assert(d as int <= r);
                assert(num == (d as int) * (tau as int) * (CMND_SCALE as int));
                assert((d as int) * (tau as int) * (CMND_SCALE as int)
                    <= r * ((tau as int) * (CMND_SCALE as int))) by (nonlinear_arith)
                    requires
                        0 <= d as int <= r,
                        tau >= 1,
                ;
                vstd::arithmetic::div_mod::lemma_div_is_ordered(
                    num as int, r * ((tau as int) * (CMND_SCALE as int)), r);
                vstd::arithmetic::div_mod::lemma_div_by_multiple(
                    (tau as int) * (CMND_SCALE as int), r);
            }
            (num / running) as u64
        } else {
            CMND_SCALE
        };
        cmnd.push(q);
        proof {
            assert(cmnd@.last() == cmnd_q(cs, tau as int));
        }
        tau = tau + 1;
    }

    // First dip below the clarity threshold, settled to its valley.
    let mut best_tau: usize = 0;
    let mut tau: usize = min_lag;
    while tau <= max_lag && best_tau == 0
        invariant
            min_lag <= tau,
            tau <= max_lag + 1,
            1 <= min_lag < max_lag,
            max_lag <= 0x0400_0000,
            cmnd@.len() == max_lag + 1,
            forall|k: int| 0 <= k <= max_lag ==> #[trigger] cmnd@[k] == cmnd_q(cs, k),
            best_tau == 0 ==> first_dip(cs, min_lag as int, max_lag as int)
                == first_dip(cs, tau as int, max_lag as int),
            best_tau != 0 ==> first_dip(cs, min_lag as int, max_lag as int)
                == best_tau && min_lag <= best_tau <= max_lag,
        decreases max_lag - tau + (if best_tau == 0 {
            1int
        } else {
            0int
        }),
    {
        if cmnd[tau] < YIN_THRESHOLD_MICRO {
            let mut t: usize = tau;
            while t + 1 <= max_lag && cmnd[t + 1] < cmnd[t]
                invariant
                    tau <= t <= max_lag,
                    max_lag <= 0x0400_0000,
                    cmnd@.len() == max_lag + 1,
                    forall|k: int| 0 <= k <= max_lag
                        ==> #[trigger] cmnd@[k] == cmnd_q(cs, k),
                    valley_bottom(cs, tau as int, max_lag as int)
                        == valley_bottom(cs, t as int, max_lag as int),
                decreases max_lag - t,
            {
                t = t + 1;
            }
            best_tau = t;
            proof {
                assert(valley_bottom(cs, t as int, max_lag as int) == t as int);
                assert(first_dip(cs, tau as int, max_lag as int)
                    == valley_bottom(cs, tau as int, max_lag as int));
            }
        } else {
            tau = tau + 1;
        }
    }

    let chosen: usize;
    if best_tau == 0 {
        // No dip: fall back to the global minimum of the curve.
        proof {
            assert(first_dip(cs, min_lag as int, max_lag as int) == 0);
        }
        let mut best: usize = min_lag;
        let mut min_val: u64 = cmnd[min_lag];
        let mut i: usize = min_lag + 1;
        while i <= max_lag
            invariant
                min_lag < i <= max_lag + 1,
                min_lag <= best <= max_lag,
                1 <= min_lag < max_lag,
                max_lag <= 0x0400_0000,
                cmnd@.len() == max_lag + 1,
                forall|k: int| 0 <= k <= max_lag ==> #[trigger] cmnd@[k] == cmnd_q(cs, k),
                min_val == cmnd_q(cs, best as int),
                argmin_from(cs, min_lag as int + 1, max_lag as int, min_lag as int)
                    == argmin_from(cs, i as int, max_lag as int, best as int),
            decreases max_lag + 1 - i,
        {
            if cmnd[i] < min_val {
                min_val = cmnd[i];
                best = i;
            }
            i = i + 1;
        }
        if min_val > 500_000 {
            return PitchResult::silence();
        }
        chosen = best;
    } else {
        chosen = best_tau;
    }
    let ghost dip = first_dip(cs, min_lag as int, max_lag as int);
    proof {
        assert(1 <= chosen <= max_lag);
    }

    // Parabolic interpolation around the chosen lag.
    let refined: i64;
    if chosen > 0 && chosen < max_lag {
        let alpha: u64 = cmnd[chosen - 1];
        let beta: u64 = cmnd[chosen];
        let gamma: u64 = cmnd[chosen + 1];
        proof {
            assert(alpha <= 1_000_000 * (max_lag as int));
            assert(beta <= 1_000_000 * (max_lag as int));
            assert(gamma <= 1_000_000 * (max_lag as int));
        }
        let denom: i128 = 2 * (2 * (beta as i128) - (alpha as i128) - (gamma as i128));
        if denom != 0 {
            let num: i128 = ((alpha as i128) - (gamma as i128)) * 1000;
            let nmag: u128 = (if num >= 0 {
                num
            } else {
                -num
            }) as u128;
            let dmag: u128 = (if denom >= 0 {
                denom
            } else {
                -denom
            }) as u128;
            let mag: u128 = nmag / dmag;
            proof {
                vstd::arithmetic::div_mod::lemma_div_is_ordered_by_denominator(
                    nmag as int, 1, dmag as int);
                assert(mag <= nmag);
                assert(nmag <= 1_000_000_000 * (max_lag as int));
            }
            let delta: i128 = if (num >= 0) == (denom >= 0) {
                mag as i128
            } else {
                -(mag as i128)
            };
            proof {
                assert(delta == div_trunc2(
                    (cmnd_q(cs, chosen as int - 1) - cmnd_q(cs, chosen as int + 1)) * 1000,
                    2 * (2 * cmnd_q(cs, chosen as int) - cmnd_q(cs, chosen as int - 1)
                        - cmnd_q(cs, chosen as int + 1))));
            }
            refined = (((chosen as i128) * 1000) + delta) as i64;
        } else {
            refined = (chosen as i64) * 1000;
        }
    } else {
        refined = (chosen as i64) * 1000;
    }
    proof {
        assert(refined as int == refined_lag_milli(cs, chosen as int, max_lag as int));
    }
    if refined <= 0 {
        return PitchResult::silence();
    }

    let hz_milli: u64 = (sample_rate as u64) * 1_000_000 / (refined as u64);
    let cq: u64 = cmnd[chosen];
    let capped: u64 = if cq >= CMND_SCALE {
        CMND_SCALE
    } else {
        cq
    };
    let confidence_micro: u32 = (CMND_SCALE - capped) as u32;
    PitchResult { hz_milli, confidence_micro }
}

} // verus!
