//! Integer square root, used to mint shares for the founding deposit.

use vstd::prelude::*;

verus! {

/// The product of two 64-bit quantities always fits in 128 bits.
pub proof fn lemma_u64_mul_fits_u128(x: u64, y: u64)
    ensures
        (x as int) * (y as int) <= u128::MAX,
{
    vstd::arithmetic::mul::lemma_mul_upper_bound(
        x as int,
        u64::MAX as int,
        y as int,
        u64::MAX as int,
    );
}

/// An exact reserve product sits strictly under the bracketing bound that the
/// pool invariant allows.
pub proof fn lemma_product_bound(x: int, y: int)
    by (nonlinear_arith)
    requires
        0 <= x,
        0 <= y,
    ensures
        x * y < (x + 1) * (y + 1),
{
}

/// Bounds on a pro-rata payout `(r * s) / t` of a reserve `r` for a share
/// balance `s` out of a total supply `t`: it never exceeds the reserve, pays
/// the whole reserve to the last provider, and leaves at least one unit
/// behind for anyone who is not the last.
pub proof fn lemma_payout_bounds(r: int, s: int, t: int)
    requires
        0 <= r,
        1 <= s,
        s <= t,
    ensures
        0 <= (r * s) / t,
        (r * s) / t <= r,
        s == t ==> (r * s) / t == r,
        s < t && 1 <= r ==> (r * s) / t < r,
{
    vstd::arithmetic::mul::lemma_mul_nonnegative(r, s);
    vstd::arithmetic::div_mod::lemma_div_pos_is_pos(r * s, t);
    vstd::arithmetic::mul::lemma_mul_is_commutative(r, s);
    vstd::arithmetic::mul::lemma_mul_inequality(s, t, r);
    vstd::arithmetic::mul::lemma_mul_is_commutative(t, r);
    vstd::arithmetic::div_mod::lemma_multiply_divide_le(r * s, t, r);
    if s == t {
        vstd::arithmetic::mul::lemma_mul_is_commutative(r, t);
        vstd::arithmetic::div_mod::lemma_div_multiples_vanish(r, t);
    }
    if s < t && 1 <= r {
        vstd::arithmetic::mul::lemma_mul_strict_inequality(s, t, r);
        vstd::arithmetic::div_mod::lemma_multiply_divide_lt(r * s, t, r);
    }
}

/// Floor of the square root of `n`: the unique `r` with
/// `r * r <= n < (r + 1) * (r + 1)`.
///
/// Binary search over `[0, 2^64]`; the result of a 128-bit radicand always
/// fits in 64 bits.
pub fn isqrt_u128(n: u128) -> (r: u64)
    ensures
        (r as int) * (r as int) <= n as int,
        (n as int) < (r as int + 1) * (r as int + 1),
{
    let mut lo: u64 = 0;
    let mut hi: u128 = 0x1_0000_0000_0000_0000;
    proof {
        assert((0x1_0000_0000_0000_0000 as int) * (0x1_0000_0000_0000_0000 as int)
            == 0x1_0000_0000_0000_0000_0000_0000_0000_0000 as int);
    }
    while (lo as u128) + 1 < hi
        invariant
            (lo as int) * (lo as int) <= n as int,
            (n as int) < (hi as int) * (hi as int),
            (lo as u128) < hi,
            hi <= 0x1_0000_0000_0000_0000,
        decreases hi - lo as u128,
    {
        let mid: u128 = (lo as u128) + (hi - (lo as u128)) / 2;
        proof {
            assert((lo as u128) < mid < hi);
            vstd::arithmetic::mul::lemma_mul_upper_bound(
                mid as int,
                0xffff_ffff_ffff_ffff as int,
                mid as int,
                0xffff_ffff_ffff_ffff as int,
            );
        }
        if mid * mid <= n {
            lo = mid as u64;
        } else {
            hi = mid;
        }
    }
    proof {
        assert(hi == (lo as u128) + 1);
    }
    lo
}

} // verus!
