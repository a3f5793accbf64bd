//! Laws relating several pool operations, proved for every state and input
//! the pool admits.

use vstd::prelude::*;

verus! {

use crate::pool::PoolView;
use crate::pool::Token;
use crate::pool::deposit_first_ok;
use crate::pool::deposit_next_ok;
use crate::pool::withdraw_ok;
use crate::pool::swap_ok;
use crate::pool::next_minted;
use crate::pool::reserve_in;
use crate::pool::reserve_out;

/// Proportional-deposit non-dilution: after a founding deposit of `(b, a)`
/// that minted `m1` shares, a ratio-matched follow-up deposit of
/// `(c * b, c * a)` mints exactly `c * m1` shares. In particular (`c == 1`)
/// a second deposit of the very same amounts mints the founder's share
/// count: the newcomer is neither favoured nor diluted.
pub proof fn lemma_deposit_non_dilution(
    p0: PoolView,
    p1: PoolView,
    p2: PoolView,
    b: int,
    a: int,
    c: int,
    first: Seq<char>,
    second: Seq<char>,
    m1: int,
    m2: int,
)
    requires
        p0.inv(),
        p0.total_shares == 0,
        1 <= c,
        deposit_first_ok(p0, b, a, first, m1, p1),
        deposit_next_ok(p1, c * b, c * a, second, m2, p2),
    ensures
        m2 == c * m1,
{
    assert(p1.reserve_base == b && p1.reserve_other == a && p1.total_shares == m1);
    assert(1 <= m1) by (nonlinear_arith)
        requires
            1 <= b,
            1 <= a,
            0 <= m1,
            b * a < (m1 + 1) * (m1 + 1),
    ;
    assert((c * b) * m1 == b * (c * m1) && (c * a) * m1 == a * (c * m1)) by (nonlinear_arith);
    vstd::arithmetic::div_mod::lemma_div_multiples_vanish(c * m1, b);
    vstd::arithmetic::div_mod::lemma_div_multiples_vanish(c * m1, a);
    assert(next_minted(b, a, m1, c * b, c * a) == c * m1);
}

/// Full-exit round trip: deposit `(b, a)` into an empty pool as the sole
/// provider, then withdraw at once. Exactly `(b, a)` comes back — the
/// integer pro-rata formula is exact for the last provider — and the pool
/// is left with zero reserves, zero shares, and no provider entries.
pub proof fn lemma_full_exit_round_trip(
    p0: PoolView,
    p1: PoolView,
    p2: PoolView,
    b: int,
    a: int,
    who: Seq<char>,
    m: int,
    out_b: int,
    out_a: int,
)
    requires
        p0.inv(),
        p0.total_shares == 0,
        deposit_first_ok(p0, b, a, who, m, p1),
        withdraw_ok(p1, who, out_b, out_a, p2),
    ensures
        out_b == b,
        out_a == a,
        p2.total_shares == 0,
        p2.reserve_base == 0,
        p2.reserve_other == 0,
        p2.shares =~= Map::<Seq<char>, int>::empty(),
{
    assert(1 <= m) by (nonlinear_arith)
        requires
            1 <= b,
            1 <= a,
            0 <= m,
            b * a < (m + 1) * (m + 1),
    ;
    assert(p0.shares =~= Map::<Seq<char>, int>::empty());
    assert(p1.shares[who] == m && p1.total_shares == m);
    assert(p1.reserve_base == b && p1.reserve_other == a);
    vstd::arithmetic::mul::lemma_mul_is_commutative(b, m);
    vstd::arithmetic::div_mod::lemma_div_multiples_vanish(b, m);
    vstd::arithmetic::mul::lemma_mul_is_commutative(a, m);
    vstd::arithmetic::div_mod::lemma_div_multiples_vanish(a, m);
    assert(p2.shares =~= Map::<Seq<char>, int>::empty());
}

/// Swap monotonicity: from one pool state, a larger input never buys a
/// smaller output, and every successful swap leaves the receiving reserve
/// positive, so the output is strictly below the pre-swap receiving
/// reserve. (With integer reserves the output can tie for adjacent inputs
/// when the rounded-down quotient does not move, so the increase is not
/// strict.)
pub proof fn lemma_swap_monotone(
    p: PoolView,
    token_out: Token,
    x1: int,
    x2: int,
    o1: int,
    o2: int,
    q1: PoolView,
    q2: PoolView,
)
    requires
        p.inv(),
        swap_ok(p, x1, token_out, o1, q1),
        swap_ok(p, x2, token_out, o2, q2),
        x1 <= x2,
    ensures
        o1 <= o2,
        o1 < reserve_out(p, token_out),
{
    let rin = reserve_in(p, token_out);
    let rout = reserve_out(p, token_out);
    let k = p.invariant_k;
    assert(1 <= (rin + x1) * (rout - o1)) by (nonlinear_arith)
        requires
            1 <= rin + x1,
            1 <= rout - o1,
    ;
    vstd::arithmetic::div_mod::lemma_div_is_ordered_by_denominator(k, rin + x1, rin + x2);
}

} // verus!
