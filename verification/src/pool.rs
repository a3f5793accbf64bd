//! The pool ledger: state, invariants, and the deposit / withdraw / swap
//! operations with their contracts.

use vstd::prelude::*;

verus! {

/// The recoverable ways an operation can refuse to act. No operation ever
/// mutates the pool on an error path.
#[derive(Clone, Copy, Debug, PartialEq, Eq, Structural)]
pub enum PoolError {
    /// A deposit or swap amount was zero.
    InvalidAmount,
    /// A later deposit's implied price diverges from the pool's spot price.
    InvariantViolation,
    /// A withdrawal or share query named a provider with no share balance.
    ProviderNotFound,
    /// A swap would drain the receiving reserve.
    InsufficientLiquidity,
    /// The price was queried while the paired reserve is zero.
    UndefinedPrice,
}

/// Which token a swap caller wants to receive; the pool's other reserve is
/// what they supply.
#[derive(Clone, Copy, Debug, PartialEq, Eq, Structural)]
pub enum Token {
    Base,
    Other,
}

/// Mathematical image of a pool: reserves, invariant constant, total share
/// supply, and the share balance of each provider, keyed by provider name.
pub ghost struct PoolView {
    pub reserve_base: int,
    pub reserve_other: int,
    pub invariant_k: int,
    pub total_shares: int,
    pub shares: Map<Seq<char>, int>,
}

impl PoolView {
    /// What every reachable pool state satisfies.
    ///
    /// `invariant_k` equals the product of the reserves after a liquidity
    /// change; across swaps it is held fixed while the actual product can
    /// round down by less than one unit of either reserve, hence the
    /// bracketing pair of inequalities. The pool is empty exactly when no
    /// shares are outstanding, and every recorded share balance is positive.
    pub open spec fn inv(self) -> bool {
        &&& 0 <= self.reserve_base
        &&& 0 <= self.reserve_other
        &&& 0 <= self.total_shares
        &&& self.reserve_base * self.reserve_other <= self.invariant_k
        &&& self.invariant_k < (self.reserve_base + 1) * (self.reserve_other + 1)
        &&& (self.total_shares == 0 ==> self.reserve_base == 0 && self.reserve_other == 0
            && self.invariant_k == 0 && self.shares =~= Map::<Seq<char>, int>::empty())
        &&& (self.total_shares > 0 ==> self.reserve_base >= 1 && self.reserve_other >= 1)
        &&& (forall|n: Seq<char>| self.shares.contains_key(n) ==> #[trigger] self.shares[n] >= 1)
    }
}

/// Do the named entries carry pairwise distinct provider names?
pub open spec fn names_unique(s: Seq<(String, u64)>) -> bool {
    forall|i: int, j: int| 0 <= i < j < s.len() ==> s[i].0@ != s[j].0@
}

/// Is every recorded share balance positive?
pub open spec fn entries_positive(s: Seq<(String, u64)>) -> bool {
    forall|i: int| 0 <= i < s.len() ==> s[i].1 >= 1
}

/// Total of the recorded share balances.
pub open spec fn shares_sum(s: Seq<(String, u64)>) -> int
    decreases s.len(),
{
    if s.len() == 0 {
        0
    } else {
        shares_sum(s.drop_last()) + s.last().1
    }
}

/// Does some entry carry the name `n`?
pub open spec fn has_provider(s: Seq<(String, u64)>, n: Seq<char>) -> bool {
    exists|i: int| 0 <= i < s.len() && s[i].0@ == n
}

/// The index of the entry named `n` (unique when names are unique).
pub open spec fn provider_index(s: Seq<(String, u64)>, n: Seq<char>) -> int {
    choose|i: int| 0 <= i < s.len() && s[i].0@ == n
}

/// The per-provider share balances as a map keyed by provider name.
pub open spec fn shares_map(s: Seq<(String, u64)>) -> Map<Seq<char>, int> {
    Map::new(
        |n: Seq<char>| has_provider(s, n),
        |n: Seq<char>| s[provider_index(s, n)].1 as int,
    )
}

proof fn lemma_sum_at_least_len(s: Seq<(String, u64)>)
    requires
        entries_positive(s),
    ensures
        shares_sum(s) >= s.len(),
    decreases s.len(),
{
    if s.len() > 0 {
        let dl = s.drop_last();
        assert(entries_positive(dl)) by {
            assert(forall|i: int| 0 <= i < dl.len() ==> dl[i] == s[i]);
        }
        lemma_sum_at_least_len(dl);
        assert(s.last().1 >= 1);
    }
}

proof fn lemma_entry_le_sum(s: Seq<(String, u64)>, i: int)
    requires
        entries_positive(s),
        0 <= i < s.len(),
    ensures
        s[i].1 + s.len() - 1 <= shares_sum(s),
    decreases s.len(),
{
    let dl = s.drop_last();
    assert(entries_positive(dl)) by {
        assert(forall|j: int| 0 <= j < dl.len() ==> dl[j] == s[j]);
    }
    if i == s.len() - 1 {
        lemma_sum_at_least_len(dl);
    } else {
        lemma_entry_le_sum(dl, i);
        assert(s.last().1 >= 1);
    }
}

proof fn lemma_sum_remove(s: Seq<(String, u64)>, i: int)
    requires
        0 <= i < s.len(),
    ensures
        shares_sum(s.remove(i)) == shares_sum(s) - s[i].1,
    decreases s.len(),
{
    let t = s.remove(i);
    if i == s.len() - 1 {
        assert(t =~= s.drop_last());
    } else {
        assert(t.drop_last() =~= s.drop_last().remove(i));
        assert(t.last() == s.last());
        lemma_sum_remove(s.drop_last(), i);
    }
}

proof fn lemma_sum_push(s: Seq<(String, u64)>, e: (String, u64))
    ensures
        shares_sum(s.push(e)) == shares_sum(s) + e.1,
{
    assert(s.push(e).drop_last() =~= s);
    assert(s.push(e).last() == e);
}

/// Under unique names, `provider_index` really is the index of entry `i`.
proof fn lemma_index_of(s: Seq<(String, u64)>, i: int)
    requires
        names_unique(s),
        0 <= i < s.len(),
    ensures
        has_provider(s, s[i].0@),
        provider_index(s, s[i].0@) == i,
        shares_map(s).contains_key(s[i].0@),
        shares_map(s)[s[i].0@] == s[i].1 as int,
{
    let n = s[i].0@;
    assert(0 <= i < s.len() && s[i].0@ == n);
    let j = provider_index(s, n);
    assert(0 <= j < s.len() && s[j].0@ == n);
    if i != j {
        assert(s[i].0@ != s[j].0@);
    }
}

proof fn lemma_map_push(s: Seq<(String, u64)>, e: (String, u64))
    requires
        names_unique(s),
        !has_provider(s, e.0@),
    ensures
        names_unique(s.push(e)),
        shares_map(s.push(e)) =~= shares_map(s).insert(e.0@, e.1 as int),
        shares_sum(s.push(e)) == shares_sum(s) + e.1,
        entries_positive(s) && e.1 >= 1 ==> entries_positive(s.push(e)),
{
    let t = s.push(e);
    lemma_sum_push(s, e);
    assert forall|p: int, q: int| 0 <= p < q < t.len() implies t[p].0@ != t[q].0@ by {
        if q == s.len() {
            assert(t[p] == s[p]);
            if t[p].0@ == e.0@ {
                assert(0 <= p < s.len() && s[p].0@ == e.0@);
            }
        } else {
            assert(t[p] == s[p] && t[q] == s[q]);
        }
    }
    let m2 = shares_map(s).insert(e.0@, e.1 as int);
    assert forall|n: Seq<char>| has_provider(t, n) <==> m2.dom().contains(n) by {
        if has_provider(t, n) {
            let jt = choose|j: int| 0 <= j < t.len() && t[j].0@ == n;
            if jt < s.len() {
                assert(s[jt].0@ == n);
            }
        }
        if m2.dom().contains(n) {
            if n == e.0@ {
                assert(t[s.len() as int].0@ == n);
            } else {
                let js = choose|j: int| 0 <= j < s.len() && s[j].0@ == n;
                assert(t[js].0@ == n);
            }
        }
    }
    assert forall|n: Seq<char>| has_provider(t, n) implies shares_map(t)[n] == m2[n] by {
        if n == e.0@ {
            lemma_index_of(t, s.len() as int);
        } else {
            let js = choose|j: int| 0 <= j < s.len() && s[j].0@ == n;
            assert(t[js].0@ == n);
            lemma_index_of(t, js);
            lemma_index_of(s, js);
        }
    }
    assert(shares_map(t) =~= m2);
}

proof fn lemma_map_remove(s: Seq<(String, u64)>, i: int)
    requires
        names_unique(s),
        0 <= i < s.len(),
    ensures
        names_unique(s.remove(i)),
        shares_map(s.remove(i)) =~= shares_map(s).remove(s[i].0@),
        shares_sum(s.remove(i)) == shares_sum(s) - s[i].1,
        entries_positive(s) ==> entries_positive(s.remove(i)),
        !has_provider(s.remove(i), s[i].0@),
{
    let t = s.remove(i);
    let ni = s[i].0@;
    lemma_sum_remove(s, i);
    assert forall|j: int| 0 <= j < t.len() implies t[j] == (if j < i {
        s[j]
    } else {
        s[j + 1]
    }) by {}
    assert forall|p: int, q: int| 0 <= p < q < t.len() implies t[p].0@ != t[q].0@ by {
        let sp: int = if p < i { p } else { p + 1 };
        let sq: int = if q < i { q } else { q + 1 };
        assert(t[p] == s[sp] && t[q] == s[sq]);
        assert(0 <= sp < sq < s.len());
    }
    let m2 = shares_map(s).remove(ni);
    assert forall|n: Seq<char>| has_provider(t, n) <==> m2.dom().contains(n) by {
        if has_provider(t, n) {
            let jt = choose|j: int| 0 <= j < t.len() && t[j].0@ == n;
            let sj: int = if jt < i { jt } else { jt + 1 };
            assert(s[sj].0@ == n);
            if n == ni {
                assert(s[i].0@ == s[sj].0@ && i != sj);
            }
        }
        if m2.dom().contains(n) {
            let js = choose|j: int| 0 <= j < s.len() && s[j].0@ == n;
            if js == i {
                assert(n == ni);
            } else {
                let tj: int = if js < i { js } else { js - 1 };
                assert(t[tj].0@ == n);
            }
        }
    }
    assert forall|n: Seq<char>| has_provider(t, n) implies shares_map(t)[n] == m2[n] by {
        let js = choose|j: int| 0 <= j < s.len() && s[j].0@ == n;
        assert(has_provider(t, n) && m2.dom().contains(n));
        assert(0 <= js < s.len() && s[js].0@ == n && js != i);
        let tj: int = if js < i { js } else { js - 1 };
        assert(t[tj].0@ == n && t[tj].1 == s[js].1);
        lemma_index_of(t, tj);
        lemma_index_of(s, js);
    }
    assert(shares_map(t) =~= m2);
}

proof fn lemma_map_positive(s: Seq<(String, u64)>)
    requires
        entries_positive(s),
    ensures
        forall|n: Seq<char>|
            shares_map(s).contains_key(n) ==> #[trigger] shares_map(s)[n] >= 1,
{
    assert forall|n: Seq<char>| shares_map(s).contains_key(n) implies #[trigger] shares_map(
        s,
    )[n] >= 1 by {
        let j = provider_index(s, n);
        assert(0 <= j < s.len() && s[j].0@ == n);
    }
}

/// Shares minted by a deposit into a seeded pool: the smaller of the two
/// proportional computations, so a depositor never receives more than their
/// smaller relative contribution justifies.
pub open spec fn next_minted(rb: int, ro: int, t: int, b: int, a: int) -> int {
    let mb = (b * t) / rb;
    let mo = (a * t) / ro;
    if mb <= mo {
        mb
    } else {
        mo
    }
}

/// A successful founding deposit: shares minted by the geometric-mean rule
/// (`m` is the integer square root of `b * a`), reserves become the deposit,
/// and the invariant constant is the exact reserve product.
pub open spec fn deposit_first_ok(
    pre: PoolView,
    b: int,
    a: int,
    who: Seq<char>,
    m: int,
    post: PoolView,
) -> bool {
    &&& pre.total_shares == 0
    &&& 1 <= b
    &&& 1 <= a
    &&& 0 <= m
    &&& m * m <= b * a
    &&& b * a < (m + 1) * (m + 1)
    &&& post.reserve_base == pre.reserve_base + b
    &&& post.reserve_other == pre.reserve_other + a
    &&& post.invariant_k == post.reserve_base * post.reserve_other
    &&& post.total_shares == m
    &&& post.shares == pre.shares.insert(who, m)
}

/// A successful deposit into a seeded pool: the implied price matches the
/// spot price exactly (by cross-multiplication), shares are minted by the
/// proportional rule, reserves accumulate, and the invariant constant is
/// recomputed as the exact reserve product. A provider's balance is only
/// ever incremented, and a balance of zero is never recorded.
pub open spec fn deposit_next_ok(
    pre: PoolView,
    b: int,
    a: int,
    who: Seq<char>,
    m: int,
    post: PoolView,
) -> bool {
    &&& 1 <= pre.total_shares
    &&& 1 <= b
    &&& 1 <= a
    &&& b * pre.reserve_other == a * pre.reserve_base
    &&& m == next_minted(pre.reserve_base, pre.reserve_other, pre.total_shares, b, a)
    &&& post.reserve_base == pre.reserve_base + b
    &&& post.reserve_other == pre.reserve_other + a
    &&& post.invariant_k == post.reserve_base * post.reserve_other
    &&& post.total_shares == pre.total_shares + m
    &&& post.shares == (if pre.shares.contains_key(who) {
        pre.shares.insert(who, pre.shares[who] + m)
    } else if 1 <= m {
        pre.shares.insert(who, m)
    } else {
        pre.shares
    })
}

/// A successful withdrawal: the provider's entire balance is burned, they
/// receive their pro-rata slice of each reserve (rounded down), the
/// invariant constant is recomputed from the new reserves, and the
/// provider's entry is removed.
pub open spec fn withdraw_ok(
    pre: PoolView,
    who: Seq<char>,
    out_b: int,
    out_a: int,
    post: PoolView,
) -> bool {
    &&& pre.shares.contains_key(who)
    &&& out_b == pre.reserve_base * pre.shares[who] / pre.total_shares
    &&& out_a == pre.reserve_other * pre.shares[who] / pre.total_shares
    &&& post.reserve_base == pre.reserve_base - out_b
    &&& post.reserve_other == pre.reserve_other - out_a
    &&& post.invariant_k == post.reserve_base * post.reserve_other
    &&& post.total_shares == pre.total_shares - pre.shares[who]
    &&& post.shares == pre.shares.remove(who)
}

/// The reserve a swap caller supplies into, given the token they receive.
pub open spec fn reserve_in(v: PoolView, token_out: Token) -> int {
    if token_out is Base {
        v.reserve_other
    } else {
        v.reserve_base
    }
}

/// The reserve a swap caller draws from, given the token they receive.
pub open spec fn reserve_out(v: PoolView, token_out: Token) -> int {
    if token_out is Base {
        v.reserve_base
    } else {
        v.reserve_other
    }
}

/// A successful zero-fee constant-product swap: the supplying reserve grows
/// by the input, the receiving reserve becomes the rounded-down quotient
/// `k / (R_in + amount_in)`, and the held constant `k` is bracketed by the
/// new reserve product to within one rounding unit — the exact
/// constant-product solution, rounded in the pool's favour. Shares and `k`
/// itself are untouched.
pub open spec fn swap_ok(
    pre: PoolView,
    amount_in: int,
    token_out: Token,
    out: int,
    post: PoolView,
) -> bool {
    let rin = reserve_in(pre, token_out);
    let rout = reserve_out(pre, token_out);
    let d = rin + amount_in;
    &&& 1 <= amount_in
    &&& out == rout - pre.invariant_k / d
    &&& 0 <= out
    &&& 1 <= rout - out
    &&& d * (rout - out) <= pre.invariant_k
    &&& pre.invariant_k < d * (rout - out + 1)
    &&& post.invariant_k == pre.invariant_k
    &&& reserve_in(post, token_out) == d
    &&& reserve_out(post, token_out) == rout - out
    &&& post.total_shares == pre.total_shares
    &&& post.shares == pre.shares
}

/// Linear scan for the entry named `name`.
fn find_provider(v: &Vec<(String, u64)>, name: &String) -> (r: Option<usize>)
    ensures
        match r {
            Some(i) => 0 <= i < v@.len() && v@[i as int].0@ == name@,
            None => !has_provider(v@, name@),
        },
{
    let mut i: usize = 0;
    while i < v.len()
        invariant
            0 <= i <= v@.len(),
            forall|j: int| 0 <= j < i ==> v@[j].0@ != name@,
        decreases v@.len() - i,
    {
        if v[i].0 == *name {
            return Some(i);
        }
        i = i + 1;
    }
    None
}

/// The pool ledger. All mutation goes through the operations below;
/// providers are referenced by name and never hold the ledger's internals.
pub struct Pool {
    reserve_base: u64,
    reserve_other: u64,
    invariant_k: u128,
    total_shares: u64,
    providers: Vec<(String, u64)>,
}

impl View for Pool {
    type V = PoolView;

    closed spec fn view(&self) -> PoolView {
        PoolView {
            reserve_base: self.reserve_base as int,
            reserve_other: self.reserve_other as int,
            invariant_k: self.invariant_k as int,
            total_shares: self.total_shares as int,
            shares: shares_map(self.providers@),
        }
    }
}

impl Pool {
    /// Well-formedness: the share ledger is a map (unique names, positive
    /// balances), its balances add up to `total_shares`, and the abstract
    /// state satisfies its invariant.
    pub closed spec fn wf(&self) -> bool {
        &&& names_unique(self.providers@)
        &&& entries_positive(self.providers@)
        &&& shares_sum(self.providers@) == self.total_shares as int
        &&& self@.inv()
    }

    /// An empty pool: zero reserves, zero shares, no providers.
    pub fn new() -> (p: Pool)
        ensures
            p.wf(),
            p@.inv(),
            p@.reserve_base == 0,
            p@.reserve_other == 0,
            p@.invariant_k == 0,
            p@.total_shares == 0,
            p@.shares =~= Map::<Seq<char>, int>::empty(),
    {
        let p = Pool {
            reserve_base: 0,
            reserve_other: 0,
            invariant_k: 0,
            total_shares: 0,
            providers: Vec::new(),
        };
        proof {
            assert(p@.shares =~= Map::<Seq<char>, int>::empty());
        }
        p
    }

    /// The two reserves, base first.
    pub fn get_reserves(&self) -> (r: (u64, u64))
        ensures
            r.0 as int == self@.reserve_base,
            r.1 as int == self@.reserve_other,
    {
        (self.reserve_base, self.reserve_other)
    }

    /// The constant-product invariant currently in force.
    pub fn get_invariant_k(&self) -> (k: u128)
        ensures
            k as int == self@.invariant_k,
    {
        self.invariant_k
    }

    /// The outstanding liquidity-share supply.
    pub fn get_total_shares(&self) -> (t: u64)
        ensures
            t as int == self@.total_shares,
    {
        self.total_shares
    }

    /// The spot price as the exact ratio `reserve_base : reserve_other`,
    /// undefined while the paired reserve is zero.
    pub fn get_price(&self) -> (r: Result<(u64, u64), PoolError>)
        ensures
            match r {
                Ok(p) => self@.reserve_other >= 1 && p.0 as int == self@.reserve_base
                    && p.1 as int == self@.reserve_other,
                Err(e) => e == PoolError::UndefinedPrice && self@.reserve_other == 0,
            },
    {
        if self.reserve_other == 0 {
            Err(PoolError::UndefinedPrice)
        } else {
            Ok((self.reserve_base, self.reserve_other))
        }
    }

    /// Deposit both amounts and mint shares for `provider`, creating the
    /// provider's balance if absent and incrementing it otherwise.
    ///
    /// The founding deposit mints the integer square root of the amount
    /// product; a later deposit must match the pool's spot price exactly
    /// (checked by cross-multiplication) and mints proportionally. A zero
    /// amount or a mismatched ratio is rejected with the pool unchanged.
    /// The arithmetic preconditions only rule out 64-bit overflow of the new
    /// reserves and of the new share supply.
    pub fn deposit(&mut self, amount_base: u64, amount_other: u64, provider: String) -> (r:
        Result<u64, PoolError>)
        requires
            old(self).wf(),
            provider@.len() >= 1,
            old(self)@.reserve_base + amount_base <= u64::MAX,
            old(self)@.reserve_other + amount_other <= u64::MAX,
            (1 <= old(self)@.total_shares && 1 <= amount_base && 1 <= amount_other
                && (amount_base as int) * old(self)@.reserve_other == (amount_other as int)
                * old(self)@.reserve_base) ==> old(self)@.total_shares + next_minted(
                old(self)@.reserve_base,
                old(self)@.reserve_other,
                old(self)@.total_shares,
                amount_base as int,
                amount_other as int,
            ) <= u64::MAX,
        ensures
            final(self).wf(),
            final(self)@.inv(),
            match r {
                Ok(m) => {
                    &&& (old(self)@.total_shares == 0 ==> deposit_first_ok(
                        old(self)@,
                        amount_base as int,
                        amount_other as int,
                        provider@,
                        m as int,
                        final(self)@,
                    ))
                    &&& (old(self)@.total_shares != 0 ==> deposit_next_ok(
                        old(self)@,
                        amount_base as int,
                        amount_other as int,
                        provider@,
                        m as int,
                        final(self)@,
                    ))
                },
                Err(e) => {
                    &&& *final(self) == *old(self)
                    &&& (e == PoolError::InvalidAmount <==> (amount_base == 0 || amount_other
                        == 0))
                    &&& (e == PoolError::InvariantViolation <==> (1 <= amount_base && 1
                        <= amount_other && 1 <= old(self)@.total_shares && (amount_base as int)
                        * old(self)@.reserve_other != (amount_other as int)
                        * old(self)@.reserve_base))
                    &&& (e == PoolError::InvalidAmount || e == PoolError::InvariantViolation)
                },
            },
    {
        if amount_base == 0 || amount_other == 0 {
            return Err(PoolError::InvalidAmount);
        }
        let minted: u64;
        if self.total_shares == 0 {
            proof {
                crate::math::lemma_u64_mul_fits_u128(amount_base, amount_other);
            }
            let prod: u128 = (amount_base as u128) * (amount_other as u128);
            minted = crate::math::isqrt_u128(prod);
            proof {
                assert(1 <= (amount_base as int) * (amount_other as int)) by (nonlinear_arith)
                    requires
                        1 <= amount_base,
                        1 <= amount_other,
                ;
                assert(1 <= minted) by (nonlinear_arith)
                    requires
                        (prod as int) < (minted as int + 1) * (minted as int + 1),
                        1 <= prod,
                ;
            }
        } else {
            proof {
                crate::math::lemma_u64_mul_fits_u128(amount_base, self.reserve_other);
                crate::math::lemma_u64_mul_fits_u128(amount_other, self.reserve_base);
                assert(1 <= self.reserve_base && 1 <= self.reserve_other);
            }
            let lhs: u128 = (amount_base as u128) * (self.reserve_other as u128);
            let rhs: u128 = (amount_other as u128) * (self.reserve_base as u128);
            if lhs != rhs {
                return Err(PoolError::InvariantViolation);
            }
            proof {
                crate::math::lemma_u64_mul_fits_u128(amount_base, self.total_shares);
                crate::math::lemma_u64_mul_fits_u128(amount_other, self.total_shares);
            }
            let mb: u128 = (amount_base as u128) * (self.total_shares as u128) / (
            self.reserve_base as u128);
            let mo: u128 = (amount_other as u128) * (self.total_shares as u128) / (
            self.reserve_other as u128);
            let m128: u128 = if mb <= mo {
                mb
            } else {
                mo
            };
            proof {
                assert(m128 as int == next_minted(
                    old(self)@.reserve_base,
                    old(self)@.reserve_other,
                    old(self)@.total_shares,
                    amount_base as int,
                    amount_other as int,
                ));
            }
            minted = m128 as u64;
        }
        let ghost pre = old(self)@;
        self.reserve_base = self.reserve_base + amount_base;
        self.reserve_other = self.reserve_other + amount_other;
        proof {
            crate::math::lemma_u64_mul_fits_u128(self.reserve_base, self.reserve_other);
        }
        self.invariant_k = (self.reserve_base as u128) * (self.reserve_other as u128);
        self.total_shares = self.total_shares + minted;
        proof {
            if pre.total_shares == 0 {
                lemma_sum_at_least_len(self.providers@);
                assert(self.providers@.len() == 0);
            }
        }
        match find_provider(&self.providers, &provider) {
            Some(i) => {
                let ghost entries0 = self.providers@;
                proof {
                    lemma_index_of(entries0, i as int);
                    lemma_entry_le_sum(entries0, i as int);
                }
                let (nm, cur) = self.providers.remove(i);
                proof {
                    lemma_map_remove(entries0, i as int);
                }
                let updated: u64 = cur + minted;
                let ghost entries1 = self.providers@;
                self.providers.push((nm, updated));
                proof {
                    lemma_map_push(entries1, self.providers@.last());
                    assert(shares_map(self.providers@) =~= pre.shares.insert(
                        provider@,
                        pre.shares[provider@] + minted,
                    ));
                    lemma_map_positive(self.providers@);
                    crate::math::lemma_product_bound(
                        self.reserve_base as int,
                        self.reserve_other as int,
                    );
                }
            },
            None => {
                if minted > 0 {
                    let ghost entries0 = self.providers@;
                    self.providers.push((provider, minted));
                    proof {
                        lemma_map_push(entries0, self.providers@.last());
                        assert(shares_map(self.providers@) =~= pre.shares.insert(
                            provider@,
                            minted as int,
                        ));
                        lemma_map_positive(self.providers@);
                        crate::math::lemma_product_bound(
                            self.reserve_base as int,
                            self.reserve_other as int,
                        );
                    }
                } else {
                    proof {
                        lemma_map_positive(self.providers@);
                        crate::math::lemma_product_bound(
                            self.reserve_base as int,
                            self.reserve_other as int,
                        );
                    }
                }
            },
        }
        Ok(minted)
    }

    /// Withdraw `provider`'s entire share balance, paying out their pro-rata
    /// slice of each reserve; an unknown provider is rejected with the pool
    /// unchanged.
    pub fn withdraw(&mut self, provider: &String) -> (r: Result<(u64, u64), PoolError>)
        requires
            old(self).wf(),
        ensures
            final(self).wf(),
            final(self)@.inv(),
            match r {
                Ok(out) => withdraw_ok(
                    old(self)@,
                    provider@,
                    out.0 as int,
                    out.1 as int,
                    final(self)@,
                ),
                Err(e) => {
                    &&& e == PoolError::ProviderNotFound
                    &&& !old(self)@.shares.contains_key(provider@)
                    &&& *final(self) == *old(self)
                },
            },
    {
        let idx: usize = match find_provider(&self.providers, provider) {
            Some(i) => i,
            None => {
                return Err(PoolError::ProviderNotFound);
            },
        };
        let ghost pre = self@;
        let ghost entries0 = self.providers@;
        proof {
            lemma_index_of(entries0, idx as int);
            lemma_entry_le_sum(entries0, idx as int);
        }
        let s: u64 = self.providers[idx].1;
        let t: u64 = self.total_shares;
        proof {
            assert(1 <= s && s <= t);
            crate::math::lemma_u64_mul_fits_u128(self.reserve_base, s);
            crate::math::lemma_u64_mul_fits_u128(self.reserve_other, s);
            crate::math::lemma_payout_bounds(self.reserve_base as int, s as int, t as int);
            crate::math::lemma_payout_bounds(self.reserve_other as int, s as int, t as int);
        }
        let amount_base: u64 = ((self.reserve_base as u128) * (s as u128) / (t as u128)) as u64;
        let amount_other: u64 = ((self.reserve_other as u128) * (s as u128) / (t as u128)) as u64;
        self.reserve_base = self.reserve_base - amount_base;
        self.reserve_other = self.reserve_other - amount_other;
        proof {
            crate::math::lemma_u64_mul_fits_u128(self.reserve_base, self.reserve_other);
        }
        self.invariant_k = (self.reserve_base as u128) * (self.reserve_other as u128);
        self.total_shares = self.total_shares - s;
        self.providers.remove(idx);
        proof {
            lemma_map_remove(entries0, idx as int);
            lemma_map_positive(self.providers@);
            crate::math::lemma_product_bound(
                self.reserve_base as int,
                self.reserve_other as int,
            );
            if s == t {
                lemma_sum_at_least_len(self.providers@);
                assert(self.providers@.len() == 0);
                assert(shares_map(self.providers@) =~= Map::<Seq<char>, int>::empty());
            }
            assert(shares_map(self.providers@) =~= pre.shares.remove(provider@));
        }
        Ok((amount_base, amount_other))
    }

    /// Swap `amount_in` of one token for the other at the constant-product
    /// price: the caller receives `R_out - k / (R_in + amount_in)`, rounded
    /// down, and `k` itself is held fixed across the swap. A zero input is
    /// rejected, as is a swap that would drain the receiving reserve; a
    /// rejection leaves the pool unchanged. The precondition only rules out
    /// 64-bit overflow of the supplying reserve.
    pub fn swap(&mut self, amount_in: u64, token_out: Token) -> (r: Result<u64, PoolError>)
        requires
            old(self).wf(),
            reserve_in(old(self)@, token_out) + amount_in <= u64::MAX,
        ensures
            final(self).wf(),
            final(self)@.inv(),
            match r {
                Ok(out) => swap_ok(
                    old(self)@,
                    amount_in as int,
                    token_out,
                    out as int,
                    final(self)@,
                ),
                Err(e) => {
                    &&& *final(self) == *old(self)
                    &&& (e == PoolError::InvalidAmount <==> amount_in == 0)
                    &&& (e == PoolError::InsufficientLiquidity <==> 1 <= amount_in && old(
                        self,
                    )@.invariant_k < reserve_in(old(self)@, token_out) + amount_in)
                    &&& (e == PoolError::InvalidAmount || e
                        == PoolError::InsufficientLiquidity)
                },
            },
    {
        if amount_in == 0 {
            return Err(PoolError::InvalidAmount);
        }
        let (rin, rout) = match token_out {
            Token::Base => (self.reserve_other, self.reserve_base),
            Token::Other => (self.reserve_base, self.reserve_other),
        };
        let d: u64 = rin + amount_in;
        let q128: u128 = self.invariant_k / (d as u128);
        proof {
            let k = self.invariant_k as int;
            vstd::arithmetic::mul::lemma_mul_is_commutative(
                self.reserve_base as int + 1,
                self.reserve_other as int + 1,
            );
            vstd::arithmetic::div_mod::lemma_div_is_ordered_by_denominator(
                k,
                rin as int + 1,
                d as int,
            );
            vstd::arithmetic::div_mod::lemma_multiply_divide_lt(
                k,
                rin as int + 1,
                rout as int + 1,
            );
            assert(q128 <= rout);
        }
        let q: u64 = q128 as u64;
        if q == 0 {
            proof {
                vstd::arithmetic::div_mod::lemma_small_div_converse(
                    self.invariant_k as int,
                    d as int,
                );
            }
            return Err(PoolError::InsufficientLiquidity);
        }
        proof {
            if self.invariant_k < d {
                vstd::arithmetic::div_mod::lemma_basic_div(self.invariant_k as int, d as int);
            }
        }
        let out: u64 = rout - q;
        let ghost k = self.invariant_k as int;
        proof {
            vstd::arithmetic::div_mod::lemma_fundamental_div_mod(k, d as int);
            vstd::arithmetic::div_mod::lemma_mod_division_less_than_divisor(k, d as int);
            assert((d as int) * (q as int) <= k < (d as int) * (q as int + 1)
                && (q as int) * (d as int) <= k < (q as int + 1) * (d as int + 1) && k < (
            d as int + 1) * (q as int + 1)) by (nonlinear_arith)
                requires
                    k == (d as int) * (q128 as int) + k % (d as int),
                    0 <= k % (d as int) < (d as int),
                    q == q128,
                    1 <= d,
                    0 <= q,
            ;
        }
        match token_out {
            Token::Base => {
                self.reserve_base = q;
                self.reserve_other = d;
            },
            Token::Other => {
                self.reserve_base = d;
                self.reserve_other = q;
            },
        }
        Ok(out)
    }

    /// The provider's current share balance, if they have one.
    pub fn get_provider_shares(&self, provider: &String) -> (r: Result<u64, PoolError>)
        requires
            self.wf(),
        ensures
            match r {
                Ok(s) => self@.shares.contains_key(provider@) && s as int
                    == self@.shares[provider@],
                Err(e) => e == PoolError::ProviderNotFound && !self@.shares.contains_key(
                    provider@,
                ),
            },
    {
        match find_provider(&self.providers, provider) {
            Some(i) => {
                proof {
                    lemma_index_of(self.providers@, i as int);
                }
                Ok(self.providers[i].1)
            },
            None => Err(PoolError::ProviderNotFound),
        }
    }
}

} // verus!
