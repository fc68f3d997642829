use liquidity_pool::decimal::{Decimal, DecimalInit, DecimalLiteral};
use liquidity_pool::error::PoolError;
use liquidity_pool::pool::{fee_rate, LpPool};

fn lit(mantissa: i64, exponent: u32) -> DecimalLiteral {
    DecimalLiteral::new(mantissa, exponent)
}

fn whole(n: i64, precision: u64) -> Decimal {
    Decimal::init(n, precision).unwrap()
}

fn exact(value: DecimalLiteral, precision: u64) -> Decimal {
    Decimal::init(value, precision).unwrap()
}

#[test]
fn test_pool_initialization() {
    let lp_pool = LpPool::init(lit(15, 1), lit(1, 1), lit(9, 0), lit(90, 0), 7).unwrap();
    assert_eq!(lp_pool.price, exact(lit(15, 1), 7));
    assert_eq!(lp_pool.min_fee, exact(lit(1, 3), 7));
    assert_eq!(lp_pool.max_fee, exact(lit(9, 2), 7));
    assert_eq!(lp_pool.liquidity_target, whole(90, 7));
    assert_eq!(lp_pool.staked_token_amount, whole(0, 7));
    assert_eq!(lp_pool.token_amount, whole(0, 7));
    assert_eq!(lp_pool.lp_token_amount, whole(0, 7));
}

#[test]
#[should_panic]
fn pool_init_error() {
    LpPool::init(lit(2, 0), lit(8, 0), lit(3, 0), lit(100, 0), 5).unwrap();
}

#[test]
fn adding_liquidity() {
    let mut lp_pool = LpPool::init(lit(1, 0), lit(0, 0), lit(4, 0), lit(14, 0), 3).unwrap();
    assert_eq!(lp_pool.add_liquidity(lit(20, 0)).unwrap(), whole(20, 3));
    assert_eq!(lp_pool.add_liquidity(lit(10, 0)).unwrap(), whole(10, 3));
    lp_pool.swap(lit(15, 0)).unwrap();
    assert_eq!(lp_pool.add_liquidity(lit(10, 0)).unwrap(), whole(10, 3));
    lp_pool.swap(lit(20, 0)).unwrap();
    assert_eq!(lp_pool.add_liquidity(lit(10, 0)).unwrap(), exact(lit(9871, 3), 3));
}

#[test]
fn swapping() {
    let mut lp_pool = LpPool::init(lit(2, 0), lit(10, 0), lit(50, 0), lit(100, 0), 2).unwrap();
    lp_pool.add_liquidity(lit(120, 0)).unwrap();
    assert_eq!(lp_pool.swap(lit(5, 0)).unwrap(), whole(9, 2));
    assert_eq!(lp_pool.swap(lit(30, 0)).unwrap(), whole(42, 2));
}

#[test]
#[should_panic]
fn swapping_error() {
    let mut lp_pool = LpPool::init(lit(2, 0), lit(10, 0), lit(50, 0), lit(100, 0), 2).unwrap();
    lp_pool.add_liquidity(lit(10, 0)).unwrap();
    lp_pool.swap(lit(7, 0)).unwrap();
}

#[test]
fn removing_liquidity() {
    let mut lp_pool = LpPool::init(lit(2, 0), lit(50, 0), lit(70, 0), lit(10, 0), 2).unwrap();
    lp_pool.add_liquidity(lit(200, 0)).unwrap();
    lp_pool.swap(lit(50, 0)).unwrap();
    assert_eq!(
        lp_pool.remove_liquidity(lit(100, 0)).unwrap(),
        (whole(75, 2), whole(25, 2))
    );
}

#[test]
fn init_rejects_each_negative_argument() {
    let ok = lit(1, 0);
    let neg = lit(-1, 1);
    assert_eq!(LpPool::init(neg, ok, ok, ok, 2), Err(PoolError::InvalidArgument));
    assert_eq!(LpPool::init(ok, neg, ok, ok, 2), Err(PoolError::InvalidArgument));
    assert_eq!(LpPool::init(ok, ok, neg, ok, 2), Err(PoolError::InvalidArgument));
    assert_eq!(LpPool::init(ok, ok, ok, neg, 2), Err(PoolError::InvalidArgument));
}

#[test]
fn init_fee_order_error() {
    assert_eq!(
        LpPool::init(lit(20, 1), lit(80, 1), lit(30, 1), lit(100, 0), 5),
        Err(PoolError::FeeOrderError)
    );
    // compared exactly, not after rounding to the pool's precision
    assert_eq!(
        LpPool::init(lit(1, 0), lit(101, 3), lit(1009, 4), lit(1, 0), 2),
        Err(PoolError::FeeOrderError)
    );
}

#[test]
fn init_fee_too_high() {
    assert_eq!(
        LpPool::init(lit(1, 0), lit(1, 0), lit(1001, 1), lit(1, 0), 2),
        Err(PoolError::FeeTooHigh)
    );
    let pool = LpPool::init(lit(1, 0), lit(1, 0), lit(100, 0), lit(1, 0), 2).unwrap();
    assert_eq!(pool.max_fee, whole(1, 2));
}

#[test]
fn init_precision_too_large() {
    assert_eq!(
        LpPool::init(lit(1, 0), lit(1, 0), lit(2, 0), lit(1, 0), 20),
        Err(PoolError::Overflow)
    );
    assert!(LpPool::init(lit(1, 0), lit(1, 0), lit(2, 0), lit(1, 0), 19).is_ok());
}

#[test]
fn init_starts_with_empty_reserves() {
    let pool = LpPool::init(lit(3, 0), lit(0, 0), lit(0, 0), lit(0, 0), 0).unwrap();
    assert_eq!(pool.token_amount.number, 0);
    assert_eq!(pool.staked_token_amount.number, 0);
    assert_eq!(pool.lp_token_amount.number, 0);
    assert_eq!(pool.price.number, 3);
}

#[test]
fn first_deposit_mints_one_for_one() {
    let mut pool = LpPool::init(lit(15, 1), lit(1, 0), lit(5, 0), lit(50, 0), 4).unwrap();
    let minted = pool.add_liquidity(lit(12345, 3)).unwrap();
    assert_eq!(minted, exact(lit(12345, 3), 4));
    assert_eq!(pool.token_amount.number, 123450);
    assert_eq!(pool.lp_token_amount.number, 123450);
}

#[test]
fn proportional_minting_formula() {
    let mut pool = LpPool::init(lit(2, 0), lit(0, 0), lit(0, 0), lit(0, 0), 2).unwrap();
    pool.add_liquidity(lit(100, 0)).unwrap();
    pool.swap(lit(10, 0)).unwrap();
    // token 80.00, staked 10.00, valuation 80 + 2 * 10 = 100.00, shares 100.00
    assert_eq!(pool.token_amount.number, 8000);
    let minted = pool.add_liquidity(lit(333, 1)).unwrap();
    // 33.30 * 100.00 / 100.00
    assert_eq!(minted.number, 3330);
    assert_eq!(pool.lp_token_amount.number, 13330);
    assert_eq!(pool.token_amount.number, 11330);
    // 7 * 133.30 / 133.30 truncated at each step
    let minted = pool.add_liquidity(lit(7, 0)).unwrap();
    let product = 700u128 * 13330 / 100;
    assert_eq!(minted.number as u128, product * 100 / 13330);
}

#[test]
fn add_liquidity_rejects_negative_amount() {
    let mut pool = LpPool::init(lit(1, 0), lit(0, 0), lit(1, 0), lit(1, 0), 2).unwrap();
    assert_eq!(pool.add_liquidity(lit(-5, 0)), Err(PoolError::InvalidArgument));
    assert_eq!(pool.token_amount.number, 0);
}

#[test]
fn add_liquidity_overflow_leaves_pool_unchanged() {
    let mut pool = LpPool::init(lit(1, 0), lit(0, 0), lit(1, 0), lit(1, 0), 18).unwrap();
    pool.add_liquidity(lit(10, 0)).unwrap();
    let before = (pool.token_amount, pool.lp_token_amount);
    assert_eq!(pool.add_liquidity(lit(18, 0)), Err(PoolError::Overflow));
    assert_eq!((pool.token_amount, pool.lp_token_amount), before);
}

#[test]
fn swap_rejection_leaves_pool_unchanged() {
    let mut pool = LpPool::init(lit(2, 0), lit(10, 0), lit(50, 0), lit(100, 0), 2).unwrap();
    pool.add_liquidity(lit(10, 0)).unwrap();
    assert_eq!(pool.swap(lit(7, 0)), Err(PoolError::InsufficientLiquidity));
    assert_eq!(pool.token_amount.number, 1000);
    assert_eq!(pool.staked_token_amount.number, 0);
    assert_eq!(pool.lp_token_amount.number, 1000);
    // exactly the reserve is still allowed
    assert!(pool.swap(lit(5, 0)).is_ok());
}

#[test]
fn swap_rejects_negative_amount() {
    let mut pool = LpPool::init(lit(2, 0), lit(10, 0), lit(50, 0), lit(100, 0), 2).unwrap();
    assert_eq!(pool.swap(lit(-1, 0)), Err(PoolError::InvalidArgument));
}

#[test]
fn swap_updates_reserves_with_fee() {
    let mut pool = LpPool::init(lit(2, 0), lit(10, 0), lit(50, 0), lit(100, 0), 2).unwrap();
    pool.add_liquidity(lit(120, 0)).unwrap();
    pool.swap(lit(5, 0)).unwrap();
    // 120 - 10 + fee 1.00
    assert_eq!(pool.token_amount.number, 11100);
    assert_eq!(pool.staked_token_amount.number, 500);
    pool.swap(lit(30, 0)).unwrap();
    // 111 - 60 + fee 18.00
    assert_eq!(pool.token_amount.number, 6900);
    assert_eq!(pool.staked_token_amount.number, 3500);
}

#[test]
fn fee_rate_values() {
    let d = |n: i64| whole(n, 2);
    let min = exact(lit(10, 2), 2);
    let max = exact(lit(50, 2), 2);
    // at or above the target: the minimal fee
    assert_eq!(fee_rate(d(100), d(100), min, max), min);
    assert_eq!(fee_rate(d(500), d(100), min, max), min);
    // empty reserve: the maximal fee
    assert_eq!(fee_rate(d(0), d(100), min, max), max);
    // 51% of the target: 0.50 - 0.40 * 0.51 = 0.296, rounded to 0.30
    assert_eq!(fee_rate(d(51), d(100), min, max).number, 30);
}

#[test]
fn fee_rate_never_rises_with_reserve() {
    let min = exact(lit(1, 2), 3);
    let max = exact(lit(9, 2), 3);
    let target = whole(40, 3);
    let mut last = fee_rate(whole(0, 3), target, min, max).number;
    for t in 1..60i64 {
        let rate = fee_rate(whole(t, 3), target, min, max).number;
        assert!(rate <= last);
        if t >= 40 {
            assert_eq!(rate, min.number);
        }
        last = rate;
    }
}

#[test]
fn redemption_bound() {
    let mut pool = LpPool::init(lit(2, 0), lit(50, 0), lit(70, 0), lit(10, 0), 2).unwrap();
    pool.add_liquidity(lit(200, 0)).unwrap();
    assert_eq!(pool.remove_liquidity(lit(20001, 2)), Err(PoolError::InsufficientShares));
    assert_eq!(pool.lp_token_amount.number, 20000);
    assert_eq!(pool.remove_liquidity(lit(-1, 0)), Err(PoolError::InvalidArgument));
}

#[test]
fn redemption_pays_fraction_of_reserves() {
    let mut pool = LpPool::init(lit(2, 0), lit(50, 0), lit(70, 0), lit(10, 0), 2).unwrap();
    pool.add_liquidity(lit(200, 0)).unwrap();
    pool.swap(lit(50, 0)).unwrap();
    let (tokens, staked) = pool.remove_liquidity(lit(50, 0)).unwrap();
    // a quarter of 150.00 and of 50.00
    assert_eq!(tokens.number, 3750);
    assert_eq!(staked.number, 1250);
    assert_eq!(pool.lp_token_amount.number, 15000);
    assert_eq!(pool.token_amount.number, 11250);
    assert_eq!(pool.staked_token_amount.number, 3750);
    // redeeming every share empties the pool
    let (tokens, staked) = pool.remove_liquidity(lit(150, 0)).unwrap();
    assert_eq!((tokens.number, staked.number), (11250, 3750));
    assert_eq!(pool.token_amount.number, 0);
    assert_eq!(pool.staked_token_amount.number, 0);
    assert_eq!(pool.lp_token_amount.number, 0);
}

#[test]
fn redeem_from_pool_without_shares() {
    let mut pool = LpPool::init(lit(2, 0), lit(50, 0), lit(70, 0), lit(10, 0), 2).unwrap();
    assert_eq!(pool.remove_liquidity(lit(0, 0)), Err(PoolError::DivisionByZero));
    assert_eq!(pool.remove_liquidity(lit(1, 2)), Err(PoolError::InsufficientShares));
}

#[test]
fn redeem_too_large_to_represent() {
    let mut pool = LpPool::init(lit(2, 0), lit(50, 0), lit(70, 0), lit(10, 0), 18).unwrap();
    pool.add_liquidity(lit(1, 0)).unwrap();
    assert_eq!(pool.remove_liquidity(lit(100, 0)), Err(PoolError::InsufficientShares));
}
