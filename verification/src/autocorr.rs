//! The lighter-weight legacy pitch estimator: plain autocorrelation of
//! the mean-centered frame, picking the lag that correlates best.

use vstd::prelude::*;
use crate::num::div_trunc_i64;
use crate::technique::{sum_ints, sum_sq_dev};
use crate::pitch::{clamp_seq, frame_mean, int_seq, MAX_FRAME, SAMPLE_CLAMP};

verus! {

/// Autocorrelation of the centered frame at one lag.
pub open spec fn corr_at(s: Seq<i32>, mean: int, lag: int, j: int) -> int
    decreases j,
{
    if j <= 0 {
        0
    } else {
        corr_at(s, mean, lag, j - 1) + (s[j - 1] - mean) * (s[j - 1 + lag] - mean)
    }
}

/// The lag of the highest autocorrelation, scanning `[i, hi]` with the
/// running best; only a strictly higher value displaces it, so lag zero
/// survives whenever nothing correlates positively.
pub open spec fn best_corr_lag(s: Seq<i32>, mean: int, i: int, hi: int, best: int, bestc: int)
    -> int
    decreases hi - i + 1,
{
    if i > hi {
        best
    } else {
        let c = corr_at(s, mean, i, s.len() - i);
        if c > bestc {
            best_corr_lag(s, mean, i + 1, hi, i, c)
        } else {
            best_corr_lag(s, mean, i + 1, hi, best, bestc)
        }
    }
}

/// The simple autocorrelation detector: the lag in the search band with the
/// highest correlation of the mean-centered frame against itself, as a
/// frequency in milli-hertz; zero for silence or degenerate input.
pub open spec fn spec_detect_naive(s: Seq<i32>, sr: int) -> int {
    if s.len() < 2 || s.len() > MAX_FRAME || sr <= 0 {
        0
    } else {
        let c = clamp_seq(s);
        let mean = frame_mean(c);
        let energy = sum_sq_dev(int_seq(c), mean);
        if 10_000 * energy < (s.len() as int) * 1_073_741_824 {
            0
        } else {
            let min_lag = sr / 1200;
            let max_lag = sr / 80;
            if max_lag >= s.len() {
                0
            } else {
                let best = best_corr_lag(c, mean, min_lag, max_lag, 0, 0);
                if best == 0 {
                    0
                } else {
                    sr * 1000 / best
                }
            }
        }
    }
}

/// Detect a pitch by plain autocorrelation: the legacy, lighter-weight
/// estimator. Returns the frequency in milli-hertz, or zero when the frame
/// is silent, degenerate, or correlates best at lag zero. The silence
/// floor here is 0.01 of full scale, half the YIN detector's.
#[verifier::rlimit(100)]
pub fn detect_pitch(samples: &[i32], sample_rate: u32) -> (hz_milli: u64)
    ensures
        hz_milli == spec_detect_naive(samples@, sample_rate as int),
{
    if samples.len() < 2 || samples.len() > MAX_FRAME || sample_rate == 0 {
        return 0;
    }
    let n: usize = samples.len();
    let ghost raw = samples@;

    let mut c: Vec<i32> = Vec::new();
    let mut i: usize = 0;
    while i < n
        invariant
            i <= n,
            n == raw.len(),
            raw == samples@,
            c@ =~= clamp_seq(raw).take(i as int),
            forall|q: int| 0 <= q < i ==> -SAMPLE_CLAMP <= #[trigger] c@[q] <= SAMPLE_CLAMP,
        decreases n - i,
    {
        let x = samples[i];
        let v: i32 = if x > SAMPLE_CLAMP {
            SAMPLE_CLAMP
        } else if x < -SAMPLE_CLAMP {
            -SAMPLE_CLAMP
        } else {
            x
        };
        c.push(v);
        i = i + 1;
    }
    proof {
        assert(c@ =~= clamp_seq(raw));
    }
    let ghost cs = c@;
    let ghost ci = int_seq(cs);

    let mut sum: i64 = 0;
    let mut i: usize = 0;
    while i < n
        invariant
            i <= n,
            n == cs.len(),
            n <= MAX_FRAME,
            cs == c@,
            ci == int_seq(cs),
            forall|q: int| 0 <= q < cs.len()
                ==> -SAMPLE_CLAMP <= #[trigger] cs[q] <= SAMPLE_CLAMP,
            sum == sum_ints(ci.take(i as int)),
            -65_536 * (i as int) <= sum <= 65_536 * (i as int),
        decreases n - i,
    {
        proof {
            assert(ci.take(i + 1).drop_last() =~= ci.take(i as int));
            assert(ci.take(i + 1).last() == ci[i as int]);
        }
        sum = sum + (c[i] as i64);
        i = i + 1;
    }
    proof {
        assert(ci.take(ci.len() as int) =~= ci);
    }
    let mean: i64 = div_trunc_i64(sum, n as u64);
    proof {
        crate::num::lemma_div_trunc_bound(sum as int, n as int, 65_536);
    }
    let mut energy: u128 = 0;
    let mut i: usize = 0;
    while i < n
        invariant
            i <= n,
            n == cs.len(),
            n <= MAX_FRAME,
            cs == c@,
            ci == int_seq(cs),
            forall|q: int| 0 <= q < cs.len()
                ==> -SAMPLE_CLAMP <= #[trigger] cs[q] <= SAMPLE_CLAMP,
            -65_536 <= mean <= 65_536,
            mean == frame_mean(cs),
            energy == sum_sq_dev(ci.take(i as int), mean as int),
            energy <= 17_179_869_184 * (i as int),
        decreases n - i,
    {
        proof {
            assert(ci.take(i + 1).drop_last() =~= ci.take(i as int));
            assert(ci.take(i + 1).last() == ci[i as int]);
        }
        let dev: i64 = (c[i] as i64) - mean;
        proof {
            assert(0 <= (dev as int) * (dev as int) <= 17_179_869_184)
                by (nonlinear_arith)
                requires
                    -131_072 <= dev <= 131_072,
            ;
        }
        energy = energy + ((dev * dev) as u128);
        i = i + 1;
    }
    proof {
        assert(ci.take(ci.len() as int) =~= ci);
    }
    if 10_000 * energy < (n as u128) * 1_073_741_824 {
        return 0;
    }

    let min_lag_64: u64 = (sample_rate as u64) / 1200;
    let max_lag_64: u64 = (sample_rate as u64) / 80;
    if max_lag_64 >= (n as u64) {
        return 0;
    }
    let min_lag: usize = min_lag_64 as usize;
    let max_lag: usize = max_lag_64 as usize;

    let mut best_lag: usize = 0;
    let mut best_corr: i64 = 0;
    let mut lag: usize = min_lag;
    while lag <= max_lag
        invariant
            min_lag <= lag <= max_lag + 1,
            max_lag < n,
            n == cs.len(),
            n <= MAX_FRAME,
            cs == c@,
            forall|q: int| 0 <= q < cs.len()
                ==> -SAMPLE_CLAMP <= #[trigger] cs[q] <= SAMPLE_CLAMP,
            -65_536 <= mean <= 65_536,
            best_lag <= max_lag,
            best_corr >= 0,
            best_corr_lag(cs, mean as int, min_lag as int, max_lag as int, 0, 0)
                == best_corr_lag(
                cs, mean as int, lag as int, max_lag as int, best_lag as int,
                best_corr as int),
        decreases max_lag + 1 - lag,
    {
        let mut corr: i64 = 0;
        let mut j: usize = 0;
        let limit: usize = n - lag;
        while j < limit
            invariant
                j <= limit,
                limit == n - lag,
                lag <= max_lag,
                max_lag < n,
                n == cs.len(),
                n <= MAX_FRAME,
                cs == c@,
                forall|q: int| 0 <= q < cs.len()
                    ==> -SAMPLE_CLAMP <= #[trigger] cs[q] <= SAMPLE_CLAMP,
                -65_536 <= mean <= 65_536,
                corr == corr_at(cs, mean as int, lag as int, j as int),
                -17_179_869_184 * (j as int) <= corr <= 17_179_869_184 * (j as int),
            decreases limit - j,
        {
            let a: i64 = (c[j] as i64) - mean;
            let b: i64 = (c[j + lag] as i64) - mean;
            proof {
                assert(-17_179_869_184 <= (a as int) * (b as int) <= 17_179_869_184)
                    by (nonlinear_arith)
                    requires
                        -131_072 <= a <= 131_072,
                        -131_072 <= b <= 131_072,
                ;
            }
            corr = corr + a * b;
            j = j + 1;
        }
        if corr > best_corr {
            best_corr = corr;
            best_lag = lag;
        }
        lag = lag + 1;
    }

    if best_lag == 0 {
        return 0;
    }
    (sample_rate as u64) * 1000 / (best_lag as u64)
}

} // verus!
