//! Binary floating-point numbers as IEEE-754 bit patterns.
//!
//! The library never computes with floating-point numbers. It carries them as
//! the bit patterns of singles (32 bits) and doubles (64 bits), and converts
//! between whole numbers, singles and doubles in integer arithmetic, rounding
//! to the nearest value and, of two equally near, to the one whose last bit is
//! clear.

use vstd::arithmetic::power2::{
    lemma2_to64, lemma2_to64_rest, lemma_pow2_adds, lemma_pow2_strictly_increases,
    lemma_pow2_unfold, pow2,
};
use vstd::prelude::*;

verus! {

/// `q` halved `n` times. With it come the bit that the last halving dropped
/// (the guard) and whether any bit dropped before it was set (the sticky bit).
pub open spec fn halve(q: nat, guard: bool, sticky: bool, n: nat) -> (nat, bool, bool)
    decreases n,
{
    if n == 0 {
        (q, guard, sticky)
    } else {
        halve(q / 2, q % 2 == 1, sticky || guard, (n - 1) as nat)
    }
}

/// A halved number rounded by what was dropped: up where more than half was
/// dropped, or exactly half and the number is odd.
pub open spec fn round_even(h: (nat, bool, bool)) -> nat {
    if h.1 && (h.2 || h.0 % 2 == 1) {
        h.0 + 1
    } else {
        h.0
    }
}

/// `q / 2^n`, rounded to the nearest whole number, a tie to the even one.
pub open spec fn shift_round(q: nat, n: nat) -> nat {
    round_even(halve(q, false, false, n))
}

/// `q` halved until it is below `2^53`, with guard and sticky bit, and the
/// number of halvings added to `k`.
pub open spec fn halve_below(q: nat, guard: bool, sticky: bool, k: nat) -> (nat, bool, bool, nat)
    decreases q,
{
    if q < 0x20_0000_0000_0000 {
        (q, guard, sticky, k)
    } else {
        halve_below(q / 2, q % 2 == 1, sticky || guard, k + 1)
    }
}

/// `q` doubled until it reaches `limit`, and the number of doublings added
/// to `k`.
pub open spec fn double_up(q: nat, k: nat, limit: nat) -> (nat, nat)
    decreases
        (if q < limit {
            limit - q
        } else {
            0
        }),
{
    if q == 0 || q >= limit {
        (q, k)
    } else {
        double_up(2 * q, k + 1, limit)
    }
}

/// The double nearest to a whole number from 0 to `u64::MAX`.
pub open spec fn double_from_nat(n: nat) -> nat {
    if n == 0 {
        0
    } else if n < 0x20_0000_0000_0000 {
        let (q, k) = double_up(n, 0, 0x10_0000_0000_0000);
        ((1075 - k) * 0x10_0000_0000_0000 + (q - 0x10_0000_0000_0000)) as nat
    } else {
        let h = halve_below(n, false, false, 0);
        let q = round_even((h.0, h.1, h.2));
        ((1075 + h.3) * 0x10_0000_0000_0000 + (q - 0x10_0000_0000_0000)) as nat
    }
}

/// The double nearest to a whole number from `i64::MIN` to `u64::MAX`: the
/// double of its magnitude, with the sign bit set below zero.
pub open spec fn double_from_int(n: int) -> nat {
    if n >= 0 {
        double_from_nat(n as nat)
    } else {
        0x8000_0000_0000_0000 + double_from_nat((-n) as nat)
    }
}

/// Whether a bit pattern is that of a finite double.
pub open spec fn double_is_finite(bits: u64) -> bool {
    (bits / 0x10_0000_0000_0000) % 0x800 != 0x7ff
}

/// Whether a bit pattern is that of a finite single.
pub open spec fn single_is_finite(bits: u32) -> bool {
    (bits / 0x80_0000) % 0x100 != 0xff
}

/// The double that has the value of a single.
pub open spec fn double_from_single(bits: u32) -> nat {
    let sign = (bits / 0x8000_0000) as nat;
    let exponent = ((bits / 0x80_0000) % 0x100) as nat;
    let fraction = (bits % 0x80_0000) as nat;
    let high = sign * 0x8000_0000_0000_0000;
    if exponent == 0xff {
        high + 0x7ff0_0000_0000_0000 + fraction * 0x2000_0000
    } else if exponent != 0 {
        high + (exponent + 896) * 0x10_0000_0000_0000 + fraction * 0x2000_0000
    } else if fraction == 0 {
        high
    } else {
        let (q, k) = double_up(fraction, 0, 0x80_0000);
        (high + (897 - k) * 0x10_0000_0000_0000 + (q - 0x80_0000) * 0x2000_0000) as nat
    }
}

/// The single nearest to a double. A double beyond the largest single gives
/// an infinity, one too small for the smallest single gives zero, and a NaN
/// gives a quiet NaN with the leading bits of its payload.
pub open spec fn single_from_double(bits: u64) -> nat {
    let sign = (bits / 0x8000_0000_0000_0000) as nat;
    let exponent = ((bits / 0x10_0000_0000_0000) % 0x800) as nat;
    let fraction = (bits % 0x10_0000_0000_0000) as nat;
    let high = sign * 0x8000_0000;
    if exponent == 0x7ff {
        if fraction == 0 {
            high + 0x7f80_0000
        } else if fraction / 0x2000_0000 < 0x40_0000 {
            high + 0x7fc0_0000 + fraction / 0x2000_0000
        } else {
            high + 0x7f80_0000 + fraction / 0x2000_0000
        }
    } else if exponent == 0 {
        high
    } else if exponent > 1150 {
        high + 0x7f80_0000
    } else if exponent >= 897 {
        let q = shift_round(0x10_0000_0000_0000 + fraction, 29);
        (high + (exponent - 896) * 0x80_0000 + (q - 0x80_0000)) as nat
    } else {
        high + shift_round(0x10_0000_0000_0000 + fraction, (926 - exponent) as nat)
    }
}

/// Halving `n` times leaves less than `2^(e - n)` of a number below `2^e`,
/// and nothing of it where `n` is more than `e`.
pub proof fn lemma_halve_bound(q: nat, guard: bool, sticky: bool, n: nat, e: nat)
    requires
        q < pow2(e),
    ensures
        n <= e ==> halve(q, guard, sticky, n).0 < pow2((e - n) as nat),
        n > e ==> halve(q, guard, sticky, n).0 == 0,
    decreases n,
{
    lemma2_to64();
    if n > 0 {
        if e > 0 {
            lemma_pow2_unfold(e);
            lemma_halve_bound(q / 2, q % 2 == 1, sticky || guard, (n - 1) as nat, (e - 1) as nat);
        } else {
            lemma_halve_bound(q / 2, q % 2 == 1, sticky || guard, (n - 1) as nat, 0);
        }
    }
}

/// Halving `n` times leaves at least `2^(e - n)` of a number that is at
/// least `2^e`.
proof fn lemma_halve_floor(q: nat, guard: bool, sticky: bool, n: nat, e: nat)
    requires
        n <= e,
        q >= pow2(e),
    ensures
        halve(q, guard, sticky, n).0 >= pow2((e - n) as nat),
    decreases n,
{
    if n > 0 {
        lemma_pow2_unfold(e);
        lemma_halve_floor(q / 2, q % 2 == 1, sticky || guard, (n - 1) as nat, (e - 1) as nat);
    }
}

/// `q / 2^n`, rounded to the nearest whole number, a tie to the even one.
fn rounded_shift(q: u64, n: u32) -> (r: u64)
    ensures
        r == shift_round(q as nat, n as nat),
{
    let mut h: u64 = q;
    let mut guard: bool = false;
    let mut sticky: bool = false;
    let mut i: u32 = 0;
    while i < n
        invariant
            i <= n,
            halve(q as nat, false, false, n as nat) == halve(
                h as nat,
                guard,
                sticky,
                (n - i) as nat,
            ),
            i == 0 ==> !guard,
            i > 0 ==> h <= 0x7fff_ffff_ffff_ffff,
        decreases n - i,
    {
        sticky = sticky || guard;
        guard = h % 2 == 1;
        h = h / 2;
        i += 1;
    }
    if guard && (sticky || h % 2 == 1) {
        h + 1
    } else {
        h
    }
}

/// Whether a bit pattern is that of a finite double.
pub fn is_finite_double(bits: u64) -> (r: bool)
    ensures
        r == double_is_finite(bits),
{
    (bits / 0x10_0000_0000_0000) % 0x800 != 0x7ff
}

/// Whether a bit pattern is that of a finite single.
pub fn is_finite_single(bits: u32) -> (r: bool)
    ensures
        r == single_is_finite(bits),
{
    (bits / 0x80_0000) % 0x100 != 0xff
}

/// The bit pattern of the double nearest to `n`.
pub fn double_of_u64(n: u64) -> (bits: u64)
    ensures
        bits == double_from_nat(n as nat),
        bits < 0x7ff0_0000_0000_0000,
{
    if n == 0 {
        0
    } else if n < 0x20_0000_0000_0000 {
        let mut q: u64 = n;
        let mut k: u64 = 0;
        proof {
            lemma2_to64();
        }
        while q < 0x10_0000_0000_0000
            invariant
                0 < q < 0x20_0000_0000_0000,
                k <= 52,
                q >= pow2(k as nat),
                double_up(n as nat, 0, 0x10_0000_0000_0000) == double_up(
                    q as nat,
                    k as nat,
                    0x10_0000_0000_0000,
                ),
            decreases 53 - k,
        {
            proof {
                lemma_pow2_unfold((k + 1) as nat);
                lemma2_to64_rest();
                if k == 52 {
                    assert(q >= pow2(52));
                }
            }
            q = q * 2;
            k = k + 1;
        }
        (1075 - k) * 0x10_0000_0000_0000 + (q - 0x10_0000_0000_0000)
    } else {
        let mut h: u64 = n;
        let mut guard: bool = false;
        let mut sticky: bool = false;
        let mut k: u64 = 0;
        proof {
            lemma2_to64_rest();
        }
        while h >= 0x20_0000_0000_0000
            invariant
                h >= 0x10_0000_0000_0000,
                k <= 11,
                h < pow2((64 - k) as nat),
                halve_below(n as nat, false, false, 0) == halve_below(
                    h as nat,
                    guard,
                    sticky,
                    k as nat,
                ),
            decreases h,
        {
            proof {
                lemma2_to64_rest();
                lemma_pow2_unfold((64 - k) as nat);
                if k == 11 {
                    assert(h < pow2(53));
                }
            }
            sticky = sticky || guard;
            guard = h % 2 == 1;
            h = h / 2;
            k = k + 1;
        }
        let q: u64 = if guard && (sticky || h % 2 == 1) {
            h + 1
        } else {
            h
        };
        (1075 + k) * 0x10_0000_0000_0000 + (q - 0x10_0000_0000_0000)
    }
}

/// The bit pattern of the double nearest to `n`.
pub fn double_of_i64(n: i64) -> (bits: u64)
    ensures
        bits == double_from_int(n as int),
{
    if n >= 0 {
        double_of_u64(n as u64)
    } else {
        let magnitude: u64 = (-(n + 1)) as u64 + 1;
        0x8000_0000_0000_0000 + double_of_u64(magnitude)
    }
}

/// The bit pattern of the double that has the value of the single `bits`.
pub fn double_of_single(bits: u32) -> (r: u64)
    ensures
        r == double_from_single(bits),
{
    let sign: u64 = (bits / 0x8000_0000) as u64;
    let exponent: u64 = ((bits / 0x80_0000) % 0x100) as u64;
    let fraction: u64 = (bits % 0x80_0000) as u64;
    let high: u64 = sign * 0x8000_0000_0000_0000;
    if exponent == 0xff {
        high + 0x7ff0_0000_0000_0000 + fraction * 0x2000_0000
    } else if exponent != 0 {
        high + (exponent + 896) * 0x10_0000_0000_0000 + fraction * 0x2000_0000
    } else if fraction == 0 {
        high
    } else {
        let mut q: u64 = fraction;
        let mut k: u64 = 0;
        proof {
            lemma2_to64();
        }
        while q < 0x80_0000
            invariant
                0 < q < 0x100_0000,
                k <= 23,
                q >= pow2(k as nat),
                double_up(fraction as nat, 0, 0x80_0000) == double_up(q as nat, k as nat, 0x80_0000),
            decreases 24 - k,
        {
            proof {
                lemma_pow2_unfold((k + 1) as nat);
                lemma2_to64();
                if k == 23 {
                    assert(q >= pow2(23));
                }
            }
            q = q * 2;
            k = k + 1;
        }
        high + (897 - k) * 0x10_0000_0000_0000 + (q - 0x80_0000) * 0x2000_0000
    }
}

/// The bit pattern of the single nearest to the double `bits`.
pub fn single_of_double(bits: u64) -> (r: u32)
    ensures
        r == single_from_double(bits),
{
    let sign: u64 = bits / 0x8000_0000_0000_0000;
    let exponent: u64 = (bits / 0x10_0000_0000_0000) % 0x800;
    let fraction: u64 = bits % 0x10_0000_0000_0000;
    let high: u64 = sign * 0x8000_0000;
    let wide: u64 = if exponent == 0x7ff {
        if fraction == 0 {
            high + 0x7f80_0000
        } else if fraction / 0x2000_0000 < 0x40_0000 {
            high + 0x7fc0_0000 + fraction / 0x2000_0000
        } else {
            high + 0x7f80_0000 + fraction / 0x2000_0000
        }
    } else if exponent == 0 {
        high
    } else if exponent > 1150 {
        high + 0x7f80_0000
    } else if exponent >= 897 {
        let q = rounded_shift(0x10_0000_0000_0000 + fraction, 29);
        proof {
            lemma2_to64();
            lemma2_to64_rest();
            let whole = (0x10_0000_0000_0000 + fraction) as nat;
            lemma_halve_bound(whole, false, false, 29, 53);
            lemma_halve_floor(whole, false, false, 29, 52);
        }
        high + (exponent - 896) * 0x80_0000 + (q - 0x80_0000)
    } else {
        let q = rounded_shift(0x10_0000_0000_0000 + fraction, (926 - exponent) as u32);
        proof {
            lemma2_to64();
            lemma2_to64_rest();
            let whole = (0x10_0000_0000_0000 + fraction) as nat;
            lemma_halve_bound(whole, false, false, 30, 53);
            lemma_halve_more(whole, (926 - exponent) as nat);
        }
        high + q
    };
    wide as u32
}

/// Halving 30 times or more leaves no more than halving 30 times.
proof fn lemma_halve_more(q: nat, n: nat)
    requires
        n >= 30,
    ensures
        halve(q, false, false, n).0 <= halve(q, false, false, 30).0,
{
    lemma_halve_chain(q, false, false, 30, (n - 30) as nat);
    let mid = halve(q, false, false, 30);
    lemma_halve_shrinks(mid.0, mid.1, mid.2, (n - 30) as nat);
}

/// Halving `a + b` times is halving `a` times and then `b` times.
proof fn lemma_halve_chain(q: nat, guard: bool, sticky: bool, a: nat, b: nat)
    ensures
        halve(q, guard, sticky, a + b) == halve(
            halve(q, guard, sticky, a).0,
            halve(q, guard, sticky, a).1,
            halve(q, guard, sticky, a).2,
            b,
        ),
    decreases a,
{
    if a > 0 {
        lemma_halve_chain(q / 2, q % 2 == 1, sticky || guard, (a - 1) as nat, b);
    }
}

/// Halving leaves no more than there was.
proof fn lemma_halve_shrinks(q: nat, guard: bool, sticky: bool, n: nat)
    ensures
        halve(q, guard, sticky, n).0 <= q,
    decreases n,
{
    if n > 0 {
        lemma_halve_shrinks(q / 2, q % 2 == 1, sticky || guard, (n - 1) as nat);
    }
}

/// Halving `n` times a multiple of `2^n` drops no bit that is set.
pub proof fn lemma_halve_exact(k: nat, n: nat)
    ensures
        halve(k * pow2(n), false, false, n) == (k, false, false),
    decreases n,
{
    if n > 0 {
        lemma_pow2_unfold(n);
        let m = pow2((n - 1) as nat);
        assert(k * pow2(n) == 2 * (k * m)) by (nonlinear_arith)
            requires
                pow2(n) == 2 * m,
        ;
        lemma_halve_exact(k, (n - 1) as nat);
    } else {
        lemma2_to64();
        assert(k * pow2(0) == k) by (nonlinear_arith)
            requires
                pow2(0) == 1,
        ;
    }
}

/// Doubling up stops between the limit and twice the limit, at the number
/// times a power of two.
pub proof fn lemma_double_up(q: nat, k: nat, limit: nat)
    requires
        0 < q < 2 * limit,
    ensures
        double_up(q, k, limit).1 >= k,
        double_up(q, k, limit).0 == q * pow2((double_up(q, k, limit).1 - k) as nat),
        limit <= double_up(q, k, limit).0 < 2 * limit,
    decreases
        (if q < limit {
            limit - q
        } else {
            0
        }),
{
    if q >= limit {
        lemma2_to64();
        assert(q * pow2(0) == q) by (nonlinear_arith)
            requires
                pow2(0) == 1,
        ;
    } else {
        lemma_double_up(2 * q, k + 1, limit);
        let r = double_up(2 * q, k + 1, limit);
        let e = (r.1 - k) as nat;
        lemma_pow2_unfold(e);
        let m = pow2((e - 1) as nat);
        assert((2 * q) * m == q * pow2(e)) by (nonlinear_arith)
            requires
                pow2(e) == 2 * m,
        ;
    }
}

/// Every finite single survives the way to a double and back: the double
/// that has its value is rounded to it.
pub proof fn law_single_survives_widening(bits: u32)
    requires
        single_is_finite(bits),
    ensures
        double_from_single(bits) <= u64::MAX,
        double_is_finite(double_from_single(bits) as u64),
        single_from_double(double_from_single(bits) as u64) == bits,
{
    lemma2_to64();
    lemma2_to64_rest();
    let sign = (bits / 0x8000_0000) as nat;
    let exponent = ((bits / 0x80_0000) % 0x100) as nat;
    let fraction = (bits % 0x80_0000) as nat;
    assert(bits == sign * 0x8000_0000 + exponent * 0x80_0000 + fraction);
    let high = sign * 0x8000_0000_0000_0000;
    let wide = double_from_single(bits);
    if exponent != 0 {
        assert(wide == high + (exponent + 896) * 0x10_0000_0000_0000 + fraction * 0x2000_0000);
        let d = wide as u64;
        assert(d / 0x8000_0000_0000_0000 == sign);
        assert((d / 0x10_0000_0000_0000) % 0x800 == exponent + 896);
        assert(d % 0x10_0000_0000_0000 == fraction * 0x2000_0000);
        let whole = (0x10_0000_0000_0000 + fraction * 0x2000_0000) as nat;
        assert(whole == (0x80_0000 + fraction) * pow2(29)) by (nonlinear_arith)
            requires
                whole == 0x10_0000_0000_0000 + fraction * 0x2000_0000,
                pow2(29) == 0x2000_0000,
        ;
        lemma_halve_exact((0x80_0000 + fraction) as nat, 29);
        assert(shift_round(whole, 29) == 0x80_0000 + fraction);
    } else if fraction == 0 {
        assert(wide == high);
        let d = wide as u64;
        assert(d / 0x8000_0000_0000_0000 == sign);
        assert((d / 0x10_0000_0000_0000) % 0x800 == 0);
    } else {
        lemma_double_up(fraction, 0, 0x80_0000);
        let r = double_up(fraction, 0, 0x80_0000);
        let q = r.0;
        let k = r.1;
        assert(k <= 23) by {
            if k > 23 {
                if k > 24 {
                    lemma_pow2_strictly_increases(24, k);
                }
                assert(pow2(k) >= 0x100_0000);
                assert(fraction * pow2(k) >= pow2(k)) by (nonlinear_arith)
                    requires
                        fraction >= 1,
                ;
            }
        }
        assert(k >= 1) by {
            if k == 0 {
                assert(fraction * pow2(0) == fraction) by (nonlinear_arith)
                    requires
                        pow2(0) == 1,
                ;
            }
        }
        assert(wide == high + (897 - k) * 0x10_0000_0000_0000 + (q - 0x80_0000) * 0x2000_0000);
        let d = wide as u64;
        assert(d / 0x8000_0000_0000_0000 == sign);
        assert((d / 0x10_0000_0000_0000) % 0x800 == 897 - k);
        assert(d % 0x10_0000_0000_0000 == (q - 0x80_0000) * 0x2000_0000);
        let whole = (0x10_0000_0000_0000 + (q - 0x80_0000) * 0x2000_0000) as nat;
        lemma_pow2_adds(k, 29);
        assert(whole == fraction * pow2(k + 29)) by (nonlinear_arith)
            requires
                whole == 0x10_0000_0000_0000 + (q - 0x80_0000) * 0x2000_0000,
                q == fraction * pow2(k),
                pow2(k + 29) == pow2(k) * pow2(29),
                pow2(29) == 0x2000_0000,
        ;
        lemma_halve_exact(fraction, k + 29);
        assert(shift_round(whole, k + 29) == fraction);
        assert(926 - (897 - k) == k + 29);
    }
}

} // verus!
