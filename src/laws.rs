//! Laws that hold of every well-formed pool and of its operations.
use crate::ledger::sum_shares;
use crate::pool::{fair_supply, swap_out, Pool, FEE_DIVISOR};
use crate::wide::muldiv;
use vstd::arithmetic::div_mod::lemma_fundamental_div_mod;
use vstd::prelude::*;

verus! {

/// The total share supply equals the sum of all providers' balances.
pub proof fn lemma_total_is_sum_of_shares(p: &Pool)
    requires
        p.wf(),
    ensures
        p.total_spec() == sum_shares(p.book()@),
{
}

/// The total share supply is zero exactly when no provider holds shares, and
/// then every reserve is empty.
pub proof fn lemma_empty_pool(p: &Pool)
    requires
        p.wf(),
    ensures
        p.total_spec() == 0 <==> p.book()@.len() == 0,
        p.total_spec() == 0 ==> forall|i: int|
            0 <= i < p.reserves_spec().len() ==> p.reserves_spec()[i] == 0,
{
    p.book().lemma_wf();
}

proof fn lemma_floor_bounds(r: int, s: int, t: int)
    requires
        r >= 0,
        s >= 0,
        t > 0,
    ensures
        muldiv(r, s, t) * t <= r * s < muldiv(r, s, t) * t + t,
{
    lemma_fundamental_div_mod(r * s, t);
    assert(muldiv(r, s, t) * t == t * muldiv(r, s, t)) by (nonlinear_arith);
}

proof fn lemma_fair_supply_nonneg(amounts: Seq<u128>, reserves: Seq<u128>, t: int, n: int)
    requires
        t >= 0,
        n <= reserves.len(),
        n <= amounts.len(),
        forall|j: int| 0 <= j < n ==> reserves[j] > 0,
    ensures
        fair_supply(amounts, reserves, t, n) >= 0,
    decreases n,
{
    if n > 0 {
        lemma_fair_supply_nonneg(amounts, reserves, t, n - 1);
        let a = amounts[n - 1] as int;
        let r = reserves[n - 1] as int;
        assert(muldiv(a, t, r) >= 0) by (nonlinear_arith)
            requires a >= 0, t >= 0, r > 0, muldiv(a, t, r) == a * t / r;
    }
}

proof fn lemma_fair_supply_le(amounts: Seq<u128>, reserves: Seq<u128>, t: int, n: int, i: int)
    requires
        0 <= i < n,
    ensures
        fair_supply(amounts, reserves, t, n) <= muldiv(amounts[i] as int, t, reserves[i] as int),
    decreases n,
{
    if i < n - 1 {
        lemma_fair_supply_le(amounts, reserves, t, n - 1, i);
    }
}

/// A deposit into a pool that already holds shares scales every reserve by
/// the same factor `(total + minted) / total`, each rounded down by less
/// than one unit.
pub proof fn lemma_add_liquidity_proportional(p: &Pool, amounts: Seq<u128>, i: int)
    requires
        p.wf(),
        p.total_spec() > 0,
        p.add_error(amounts) is None,
        0 <= i < p.reserves_spec().len(),
    ensures
        ({
            let r = p.reserves_spec()[i] as int;
            let t = p.total_spec() as int;
            let s = p.minted(amounts);
            let r2 = r + p.added(amounts, i);
            r2 * t <= r * (t + s) < r2 * t + t
        }),
{
    let r = p.reserves_spec()[i] as int;
    let t = p.total_spec() as int;
    let s = p.minted(amounts);
    let d = p.added(amounts, i);
    lemma_fair_supply_nonneg(amounts, p.reserves_spec(), t, p.tokens_spec().len() as int);
    lemma_floor_bounds(r, s, t);
    assert((r + d) * t == r * t + d * t) by (nonlinear_arith);
    assert(r * (t + s) == r * t + r * s) by (nonlinear_arith);
}

/// In a pool that already holds shares, the amount a deposit adds to each
/// reserve is the reserve's share of the minted supply, rounded down; it is
/// positive whenever that share reaches one unit, and never more than the
/// amount offered.
pub proof fn lemma_add_liquidity_backed(p: &Pool, amounts: Seq<u128>, i: int)
    requires
        p.wf(),
        p.total_spec() > 0,
        p.add_error(amounts) is None,
        0 <= i < p.reserves_spec().len(),
    ensures
        ({
            let r = p.reserves_spec()[i] as int;
            let t = p.total_spec() as int;
            let s = p.minted(amounts);
            let d = p.added(amounts, i);
            &&& d * t <= r * s < d * t + t
            &&& r * s >= t ==> d > 0
            &&& d <= amounts[i]
        }),
{
    let r = p.reserves_spec()[i] as int;
    let t = p.total_spec() as int;
    let s = p.minted(amounts);
    let d = p.added(amounts, i);
    lemma_fair_supply_nonneg(amounts, p.reserves_spec(), t, p.tokens_spec().len() as int);
    lemma_floor_bounds(r, s, t);
    if r * s >= t {
        assert(d > 0) by (nonlinear_arith)
            requires r * s < d * t + t, r * s >= t, t > 0;
    }
    let n = p.tokens_spec().len() as int;
    let a = amounts[i] as int;
    let c = muldiv(a, t, r);
    lemma_fair_supply_le(amounts, p.reserves_spec(), t, n, i);
    assert(r > 0) by {
        if r == 0 {
            assert(exists|j: int| 0 <= j < n && p.reserves_spec()[j] == 0);
        }
    }
    lemma_fundamental_div_mod(a * t, r);
    assert(c * r <= a * t) by (nonlinear_arith)
        requires a * t == r * c + (a * t) % r, (a * t) % r >= 0;
    assert(r * s <= r * c) by (nonlinear_arith)
        requires s <= c, r > 0;
    assert(d <= a) by (nonlinear_arith)
        requires d * t <= r * s, r * s <= r * c, c * r <= a * t, t > 0;
}

/// A swap never lowers the product of the two reserves it trades between,
/// and raises it when the fee is positive.
pub proof fn lemma_swap_keeps_product(amount_in: int, fee: int, rin: int, rout: int)
    requires
        0 <= fee < FEE_DIVISOR,
        amount_in > 0,
        rin > 0,
        rout > 0,
    ensures
        ({
            let out = swap_out(amount_in, fee, rin, rout);
            &&& 0 <= out < rout
            &&& (rin + amount_in) * (rout - out) >= rin * rout
            &&& fee > 0 ==> (rin + amount_in) * (rout - out) > rin * rout
        }),
{
    let f = FEE_DIVISOR - fee;
    let a = amount_in * f;
    let d = FEE_DIVISOR * rin + a;
    let out = swap_out(amount_in, fee, rin, rout);
    assert(a > 0) by (nonlinear_arith)
        requires a == amount_in * f, amount_in > 0, f > 0;
    assert(out == (a * rout) / d);
    lemma_fundamental_div_mod(a * rout, d);
    let m = (a * rout) % d;
    assert(a * rout == d * out + m);
    assert(a * rout < d * rout) by (nonlinear_arith)
        requires a < d, rout > 0;
    assert(out < rout) by (nonlinear_arith)
        requires a * rout == d * out + m, 0 <= m, a * rout < d * rout, d > 0;
    assert(out >= 0) by (nonlinear_arith)
        requires a * rout == d * out + m, m < d, a * rout >= 0, d > 0;
    // 1000 (rin + a_in) out = out d + out a_in fee <= a rout + rout a_in fee = 1000 a_in rout
    assert(FEE_DIVISOR * ((rin + amount_in) * out) == d * out + out * amount_in * fee)
        by (nonlinear_arith)
        requires d == FEE_DIVISOR * rin + amount_in * f, f == FEE_DIVISOR - fee;
    assert(out * amount_in * fee <= rout * amount_in * fee) by (nonlinear_arith)
        requires out < rout, amount_in > 0, fee >= 0;
    assert(a * rout + rout * amount_in * fee == FEE_DIVISOR * (amount_in * rout)) by (nonlinear_arith)
        requires a == amount_in * f, f == FEE_DIVISOR - fee;
    assert((rin + amount_in) * out <= amount_in * rout);
    assert((rin + amount_in) * (rout - out) == rin * rout + (amount_in * rout - (rin + amount_in) * out))
        by (nonlinear_arith);
    if fee > 0 {
        assert(out * amount_in * fee < rout * amount_in * fee) by (nonlinear_arith)
            requires out < rout, amount_in > 0, fee > 0;
        assert((rin + amount_in) * out < amount_in * rout);
    }
}

} // verus!
