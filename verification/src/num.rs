//! Small verified numeric helpers shared by the detector and the analyzer:
//! truncating signed division, Euclidean remainder by twelve, integer square
//! root, and decimal rendering of integers.

use vstd::prelude::*;

verus! {

/// Division truncating toward zero, for a positive divisor. This is the
/// rounding used everywhere a signed mean or ratio is reduced to an integer.
pub open spec fn div_trunc(a: int, n: int) -> int
    recommends
        n > 0,
{
    if a >= 0 {
        a / n
    } else {
        -((-a) / n)
    }
}

/// Truncating division of an `i64` by a positive count.
pub fn div_trunc_i64(a: i64, n: u64) -> (q: i64)
    requires
        n > 0,
    ensures
        q == div_trunc(a as int, n as int),
{
    if a >= 0 {
        ((a as u64) / n) as i64
    } else {
        let m: u128 = (-(a as i128)) as u128;
        let qm: u128 = m / (n as u128);
        assert(qm <= m) by {
            vstd::arithmetic::div_mod::lemma_div_is_ordered_by_denominator(m as int, 1, n as int);
        }
        let q: i128 = -(qm as i128);
        q as i64
    }
}

/// A mean stays within any uniform bound on what was summed.
pub proof fn lemma_div_trunc_bound(a: int, n: int, bound: int)
    requires
        n >= 1,
        bound >= 0,
        -(bound * n) <= a <= bound * n,
    ensures
        -bound <= div_trunc(a, n) <= bound,
{
    if a >= 0 {
        assert(a / n <= bound) by (nonlinear_arith)
            requires
                n >= 1,
                bound >= 0,
                0 <= a <= bound * n,
        ;
        assert(a / n >= 0) by (nonlinear_arith)
            requires
                n >= 1,
                a >= 0,
        ;
    } else {
        assert((-a) / n <= bound) by (nonlinear_arith)
            requires
                n >= 1,
                bound >= 0,
                0 <= -a <= bound * n,
        ;
        assert((-a) / n >= 0) by (nonlinear_arith)
            requires
                n >= 1,
                -a >= 0,
        ;
    }
}

/// Absolute value of an `i64`, widened so that `i64::MIN` needs no care.
pub open spec fn abs_int(a: int) -> int {
    if a >= 0 {
        a
    } else {
        -a
    }
}

/// Absolute difference of two bounded `i64` values.
pub fn abs_diff_i64(a: i64, b: i64) -> (d: u64)
    requires
        -0x4000_0000_0000_0000 < a < 0x4000_0000_0000_0000,
        -0x4000_0000_0000_0000 < b < 0x4000_0000_0000_0000,
    ensures
        d == abs_int(a - b),
{
    if a >= b {
        (a - b) as u64
    } else {
        (b - a) as u64
    }
}

/// Integer square root: the greatest `r` with `r * r <= x`.
pub fn isqrt_u128(x: u128) -> (r: u64)
    requires
        x < 0x4000_0000_0000_0000_0000_0000_0000_0000u128,
    ensures
        (r * r) as int <= x as int,
        x < (r + 1) * (r + 1),
{
    if x == 0 {
        return 0;
    }
    let mut lo: u128 = 0;
    let mut hi: u128 = 0x8000_0000_0000_0000u128;
    assert(0x8000_0000_0000_0000u128 * 0x8000_0000_0000_0000u128
        == 0x4000_0000_0000_0000_0000_0000_0000_0000u128);
    while lo + 1 < hi
        invariant
            lo < hi,
            hi <= 0x8000_0000_0000_0000u128,
            lo * lo <= x,
            x < hi * hi,
        decreases hi - lo,
    {
        let mid: u128 = lo + (hi - lo) / 2;
        assert(lo < mid < hi);
        assert(mid * mid <= 0x8000_0000_0000_0000u128 * 0x8000_0000_0000_0000u128)
            by (nonlinear_arith)
            requires
                0 <= mid <= 0x8000_0000_0000_0000u128,
        ;
        if mid * mid <= x {
            lo = mid;
        } else {
            hi = mid;
        }
    }
    let r: u64 = lo as u64;
    assert(r * r == lo * lo);
    assert(x < (r + 1) * (r + 1)) by {
        assert(hi == lo + 1);
    }
    r
}

/// The decimal digit character for `d` in `0 ..= 9`.
pub open spec fn digit_char(d: int) -> char {
    if d == 0 {
        '0'
    } else if d == 1 {
        '1'
    } else if d == 2 {
        '2'
    } else if d == 3 {
        '3'
    } else if d == 4 {
        '4'
    } else if d == 5 {
        '5'
    } else if d == 6 {
        '6'
    } else if d == 7 {
        '7'
    } else if d == 8 {
        '8'
    } else {
        '9'
    }
}

/// Decimal rendering of a natural number, most significant digit first.
pub open spec fn spec_udec(n: nat) -> Seq<char>
    decreases n,
{
    if n < 10 {
        seq![digit_char(n as int)]
    } else {
        spec_udec(n / 10) + seq![digit_char((n % 10) as int)]
    }
}

/// Decimal rendering of an integer, with a leading minus sign when negative.
pub open spec fn spec_idec(n: int) -> Seq<char> {
    if n < 0 {
        seq!['-'] + spec_udec((-n) as nat)
    } else {
        spec_udec(n as nat)
    }
}

fn push_digit(s: &mut String, d: u64)
    requires
        d < 10,
    ensures
        final(s)@ == old(s)@ + seq![digit_char(d as int)],
{
    if d == 0 {
        proof {
            reveal_strlit("0");
        }
        s.append("0");
    } else if d == 1 {
        proof {
            reveal_strlit("1");
        }
        s.append("1");
    } else if d == 2 {
        proof {
            reveal_strlit("2");
        }
        s.append("2");
    } else if d == 3 {
        proof {
            reveal_strlit("3");
        }
        s.append("3");
    } else if d == 4 {
        proof {
            reveal_strlit("4");
        }
        s.append("4");
    } else if d == 5 {
        proof {
            reveal_strlit("5");
        }
        s.append("5");
    } else if d == 6 {
        proof {
            reveal_strlit("6");
        }
        s.append("6");
    } else if d == 7 {
        proof {
            reveal_strlit("7");
        }
        s.append("7");
    } else if d == 8 {
        proof {
            reveal_strlit("8");
        }
        s.append("8");
    } else {
        proof {
            reveal_strlit("9");
        }
        s.append("9");
    }
    proof {
        assert(final(s)@ =~= old(s)@ + seq![digit_char(d as int)]);
    }
}

/// Appends the decimal form of `n` to `s`.
pub fn push_udec(s: &mut String, n: u64)
    ensures
        final(s)@ == old(s)@ + spec_udec(n as nat),
    decreases n,
{
    if n < 10 {
        push_digit(s, n);
    } else {
        push_udec(s, n / 10);
        push_digit(s, n % 10);
        proof {
            assert(final(s)@ =~= old(s)@ + spec_udec(n as nat));
        }
    }
}

/// Appends the decimal form of `v`, with a minus sign when negative.
pub fn push_idec(s: &mut String, v: i64)
    ensures
        final(s)@ == old(s)@ + spec_idec(v as int),
{
    if v < 0 {
        proof {
            reveal_strlit("-");
        }
        s.append("-");
        let m: u64 = (-(v as i128)) as u64;
        push_udec(s, m);
        proof {
            assert(final(s)@ =~= old(s)@ + spec_idec(v as int));
        }
    } else {
        push_udec(s, v as u64);
    }
}

} // verus!
