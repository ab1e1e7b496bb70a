use multiswap::pool::{Pool, PoolError, INIT_SHARES_SUPPLY};
use multiswap::wide::{mul_div, Wide};

const ONE: u128 = 1_000_000_000_000_000_000_000_000;

fn s(x: &str) -> String {
    x.to_string()
}

fn funded_pool() -> Pool {
    let mut pool = Pool::new(0, vec![s("a"), s("b")], 3).unwrap();
    let minted = pool.add_liquidity(s("alice"), vec![5 * ONE, 10 * ONE]).unwrap();
    assert_eq!(minted, INIT_SHARES_SUPPLY);
    pool
}

#[test]
fn test_pool_swap() {
    let one_near = 10u128.pow(24);
    let mut pool = Pool::new(0, vec![s("bob"), s("charlie")], 3).unwrap();
    let num_shares = pool.add_liquidity(s("alice"), vec![5 * one_near, 10 * one_near]).unwrap();
    pool.swap(&s("alice"), &s("bob"), one_near, &s("charlie"), 1).unwrap();
    pool.remove_liquidity(&s("alice"), num_shares, vec![1, 1]).unwrap();
}

#[test]
fn first_deposit_mints_initial_supply() {
    let pool = funded_pool();
    assert_eq!(pool.total_shares(), 1_000_000_000_000_000_000_000);
    assert_eq!(pool.reserves(), &[5 * ONE, 10 * ONE]);
    assert_eq!(pool.shares_of(&s("alice")), 1_000_000_000_000_000_000_000);
    assert_eq!(pool.share_holders(), 1);
    assert_eq!(pool.tokens(), &[s("a"), s("b")]);
    assert_eq!(pool.fee(), 3);
}

#[test]
fn swap_moves_reserves_and_requests_one_transfer() {
    let mut pool = funded_pool();
    let quoted = pool.get_return(&s("a"), ONE, &s("b")).unwrap();
    assert_eq!(quoted, 1_662_497_915_624_478_906_119_726);
    let t = pool.swap(&s("trader"), &s("a"), ONE, &s("b"), 1).unwrap();
    assert_eq!(t.amount, 1_662_497_915_624_478_906_119_726);
    assert_eq!(t.receiver_id, s("trader"));
    assert_eq!(t.token_id, s("b"));
    assert_eq!(pool.reserves(), &[6 * ONE, 8_337_502_084_375_521_093_880_274]);
    assert_eq!(pool.total_shares(), INIT_SHARES_SUPPLY);
}

#[test]
fn swap_product_does_not_fall() {
    let mut pool = funded_pool();
    let (rin, rout) = (pool.reserves()[0], pool.reserves()[1]);
    pool.swap(&s("trader"), &s("a"), ONE, &s("b"), 1).unwrap();
    let (nin, nout) = (pool.reserves()[0], pool.reserves()[1]);
    // compare rin * rout with nin * nout, scaled down by ONE to fit
    let k_before = mul_div(rin, rout, ONE).unwrap();
    let k_after = mul_div(nin, nout, ONE).unwrap();
    assert!(k_after > k_before);
}

#[test]
fn remove_all_shares_returns_everything() {
    let mut pool = funded_pool();
    let out = pool.remove_liquidity(&s("alice"), INIT_SHARES_SUPPLY, vec![0, 0]).unwrap();
    assert_eq!(out, vec![5 * ONE, 10 * ONE]);
    assert_eq!(pool.total_shares(), 0);
    assert_eq!(pool.share_holders(), 0);
    assert_eq!(pool.shares_of(&s("alice")), 0);
    assert_eq!(pool.reserves(), &[0, 0]);
}

#[test]
fn quote_same_token_is_invalid_pair() {
    let pool = funded_pool();
    assert_eq!(pool.get_return(&s("a"), ONE, &s("a")), Err(PoolError::InvalidPair));
}

#[test]
fn swap_zero_amount_changes_nothing() {
    let mut pool = funded_pool();
    assert_eq!(pool.swap(&s("t"), &s("a"), 0, &s("b"), 0).unwrap_err(), PoolError::ZeroAmount);
    assert_eq!(pool.reserves(), &[5 * ONE, 10 * ONE]);
    assert_eq!(pool.total_shares(), INIT_SHARES_SUPPLY);
}

#[test]
fn remove_more_than_held_fails() {
    let mut pool = funded_pool();
    assert_eq!(
        pool.remove_liquidity(&s("alice"), INIT_SHARES_SUPPLY + 1, vec![0, 0]).unwrap_err(),
        PoolError::InsufficientShares
    );
    assert_eq!(pool.reserves(), &[5 * ONE, 10 * ONE]);
    assert_eq!(pool.shares_of(&s("alice")), INIT_SHARES_SUPPLY);
    assert_eq!(pool.total_shares(), INIT_SHARES_SUPPLY);
}

#[test]
fn proportional_deposit_takes_limiting_ratio() {
    let mut pool = funded_pool();
    let minted = pool.add_liquidity(s("bob"), vec![ONE, 3 * ONE]).unwrap();
    assert_eq!(minted, 200_000_000_000_000_000_000);
    assert_eq!(pool.reserves(), &[6 * ONE, 12 * ONE]);
    assert_eq!(pool.total_shares(), 1_200_000_000_000_000_000_000);
    assert_eq!(pool.shares_of(&s("bob")), 200_000_000_000_000_000_000);
    assert_eq!(pool.share_holders(), 2);
}

#[test]
fn partial_removal_keeps_entry() {
    let mut pool = funded_pool();
    let out = pool.remove_liquidity(&s("alice"), INIT_SHARES_SUPPLY / 4, vec![0, 0]).unwrap();
    assert_eq!(out, vec![5 * ONE / 4, 10 * ONE / 4]);
    assert_eq!(pool.shares_of(&s("alice")), 3 * INIT_SHARES_SUPPLY / 4);
    assert_eq!(pool.share_holders(), 1);
}

#[test]
fn construction_errors() {
    assert_eq!(Pool::new(0, vec![s("a"), s("b")], 1000).err(), Some(PoolError::FeeTooLarge));
    let many: Vec<String> = (0..10).map(|i| format!("t{}", i)).collect();
    assert_eq!(Pool::new(0, many, 3).err(), Some(PoolError::TooManyTokens));
    let nine: Vec<String> = (0..9).map(|i| format!("t{}", i)).collect();
    let pool = Pool::new(1, nine, 999).unwrap();
    assert_eq!(pool.reserves(), &[0u128; 9]);
    assert_eq!(pool.total_shares(), 0);
}

#[test]
fn add_liquidity_errors() {
    let mut pool = funded_pool();
    assert_eq!(pool.add_liquidity(s("bob"), vec![ONE]), Err(PoolError::TokenCountMismatch));
    assert_eq!(pool.add_liquidity(s("bob"), vec![ONE, 0]), Err(PoolError::ZeroAmount));
    let mut empty_b = Pool::new(0, vec![s("a"), s("b")], 3).unwrap();
    empty_b.add_liquidity(s("alice"), vec![ONE, 0]).unwrap();
    assert_eq!(empty_b.add_liquidity(s("bob"), vec![ONE, ONE]), Err(PoolError::EmptyReserve));
    let mut big = Pool::new(0, vec![s("a"), s("b")], 3).unwrap();
    big.add_liquidity(s("alice"), vec![u128::MAX, 1]).unwrap();
    assert_eq!(big.add_liquidity(s("bob"), vec![u128::MAX, u128::MAX]), Err(PoolError::Overflow));
    assert_eq!(big.reserves(), &[u128::MAX, 1]);
}

#[test]
fn remove_liquidity_errors() {
    let mut pool = funded_pool();
    assert_eq!(pool.remove_liquidity(&s("bob"), 1, vec![0, 0]), Err(PoolError::NoShares));
    assert_eq!(pool.remove_liquidity(&s("alice"), 1, vec![0]), Err(PoolError::TokenCountMismatch));
    assert_eq!(
        pool.remove_liquidity(&s("alice"), INIT_SHARES_SUPPLY, vec![0, 10 * ONE + 1]),
        Err(PoolError::MinAmountNotMet)
    );
    assert_eq!(pool.total_shares(), INIT_SHARES_SUPPLY);
}

#[test]
fn quote_and_swap_errors() {
    let mut pool = funded_pool();
    assert_eq!(pool.get_return(&s("x"), ONE, &s("b")), Err(PoolError::UnknownToken));
    assert_eq!(pool.get_return(&s("a"), ONE, &s("x")), Err(PoolError::UnknownToken));
    assert_eq!(pool.get_return(&s("a"), 0, &s("b")), Err(PoolError::ZeroAmount));
    let empty = Pool::new(0, vec![s("a"), s("b")], 3).unwrap();
    assert_eq!(empty.get_return(&s("a"), ONE, &s("b")), Err(PoolError::EmptyReserve));
    assert_eq!(
        pool.swap(&s("t"), &s("a"), ONE, &s("b"), 2 * ONE).unwrap_err(),
        PoolError::MinAmountNotMet
    );
    let mut full = Pool::new(0, vec![s("a"), s("b")], 0).unwrap();
    full.add_liquidity(s("alice"), vec![u128::MAX, ONE]).unwrap();
    assert_eq!(full.swap(&s("t"), &s("a"), 1, &s("b"), 0).unwrap_err(), PoolError::Overflow);
    assert_eq!(full.reserves(), &[u128::MAX, ONE]);
}

#[test]
fn zero_fee_quote_is_exact_constant_product() {
    let mut pool = Pool::new(0, vec![s("a"), s("b")], 0).unwrap();
    pool.add_liquidity(s("alice"), vec![100, 100]).unwrap();
    // 100 * 100 / (100 + 100)
    assert_eq!(pool.get_return(&s("a"), 100, &s("b")), Ok(50));
}

#[test]
fn mul_div_handles_wide_products() {
    assert_eq!(mul_div(u128::MAX, u128::MAX, u128::MAX), Some(u128::MAX));
    assert_eq!(mul_div(1u128 << 127, 6, 4), Some(255_211_775_190_703_847_597_530_955_573_826_158_592));
    assert_eq!(mul_div(u128::MAX, 2, 1), None);
    assert_eq!(mul_div(7, 3, 2), Some(10));
    assert_eq!(mul_div(0, u128::MAX, 1), Some(0));
}

#[test]
fn wide_add_sub_carry() {
    let a = Wide::from_u128(u128::MAX);
    let b = a.add(Wide::from_u128(1));
    assert_eq!((b.hi, b.lo), (1, 0));
    let c = b.sub(Wide::from_u128(1));
    assert_eq!((c.hi, c.lo), (0, u128::MAX));
    assert!(b.ge(&c) && !c.ge(&b));
    let m = Wide::mul_small(u128::MAX, 1000);
    assert_eq!((m.hi, m.lo), (999, u128::MAX - 999));
}

#[test]
fn total_shares_is_sum_of_balances() {
    let mut pool = funded_pool();
    pool.add_liquidity(s("bob"), vec![ONE, 2 * ONE]).unwrap();
    pool.add_liquidity(s("carol"), vec![3 * ONE, 6 * ONE]).unwrap();
    pool.remove_liquidity(&s("bob"), 50_000_000_000_000_000_000, vec![0, 0]).unwrap();
    let sum = pool.shares_of(&s("alice")) + pool.shares_of(&s("bob")) + pool.shares_of(&s("carol"));
    assert_eq!(pool.total_shares(), sum);
    assert_eq!(pool.share_holders(), 3);
    assert_eq!(pool.id(), 0);
}

#[test]
fn deposit_scales_each_reserve_by_same_factor() {
    let mut pool = Pool::new(7, vec![s("a"), s("b"), s("c")], 3).unwrap();
    pool.add_liquidity(s("alice"), vec![1000, 333, 7]).unwrap();
    let t = pool.total_shares();
    let minted = pool.add_liquidity(s("bob"), vec![500, 500, 500]).unwrap();
    // limited by token a: 500 * t / 1000
    assert_eq!(minted, 500 * t / 1000);
    let expected: Vec<u128> =
        [1000u128, 333, 7].iter().map(|r| r + r * minted / t).collect();
    assert_eq!(pool.reserves(), expected.as_slice());
    for (r, r2) in [1000u128, 333, 7].iter().zip(pool.reserves()) {
        assert!(r2 * t <= r * (t + minted) && r * (t + minted) < r2 * t + t);
        assert!(r2 - r <= 500);
    }
    assert_eq!(pool.id(), 7);
}

#[test]
fn failed_calls_leave_state_unchanged() {
    let mut pool = funded_pool();
    pool.add_liquidity(s("bob"), vec![ONE, 2 * ONE]).unwrap();
    let reserves = pool.reserves().to_vec();
    let total = pool.total_shares();
    assert!(pool.add_liquidity(s("bob"), vec![0, ONE]).is_err());
    assert!(pool.remove_liquidity(&s("bob"), 1, vec![ONE, 0]).is_err());
    assert!(pool.swap(&s("bob"), &s("a"), ONE, &s("a"), 0).is_err());
    assert_eq!(pool.reserves(), reserves.as_slice());
    assert_eq!(pool.total_shares(), total);
    assert_eq!(pool.shares_of(&s("bob")), 200_000_000_000_000_000_000);
}
