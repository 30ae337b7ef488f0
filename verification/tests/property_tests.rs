use reward_engine::Decimal;
use reward_engine::EngineError;
use reward_engine::Pool;
use reward_engine::PoolType;
use reward_engine::User;
use reward_engine::get_num_by_decimal;
use reward_engine::get_per_share_multiplier;
use reward_engine::query_reward;
use reward_engine::update_pool;
use reward_engine::update_user_stake;
use reward_engine::withdraw_user_reward;

fn pool_with(pool_type: PoolType, erate: u128, dmax: u128) -> Pool {
    Pool {
        pool_type,
        emission_rate: erate,
        total_staked: 0,
        minted_total: 0,
        max_mintable: dmax,
        acc_reward_per_share: "0".to_string(),
        last_update_block: 0,
    }
}

fn user_with(pid: &str) -> User {
    User {
        pid: pid.to_string(),
        staked: 0,
        reward: 0,
        reward_debt: 0,
        latest_updated_block: 0,
    }
}

#[test]
fn decimal_parse_accepts_plain_and_fractional() {
    assert_eq!(Decimal::parse("12").unwrap().truncate_to_u128(), Ok(12));
    assert_eq!(Decimal::parse("007").unwrap().truncate_to_u128(), Ok(7));
    assert_eq!(Decimal::parse("12.99").unwrap().truncate_to_u128(), Ok(12));
    assert_eq!(Decimal::parse("0.5").unwrap().truncate_to_u128(), Ok(0));
}

#[test]
fn decimal_parse_rejects_malformed() {
    for bad in ["", ".", ".5", "5.", "1.2.3", "a1", "1a", "-3", "+3", "1 2", "1.2a"] {
        assert_eq!(
            Decimal::parse(bad).unwrap_err(),
            EngineError::MalformedDecimal,
            "{bad:?} should be malformed"
        );
    }
}

#[test]
fn decimal_checked_ops_exact_values() {
    let seven = Decimal::from_u128(7);
    let eight = Decimal::from_u128(8);
    let product = seven.checked_mul(&eight).unwrap();
    assert_eq!(product.truncate_to_u128(), Ok(56));

    let sum = seven.checked_add(&eight).unwrap();
    assert_eq!(sum.truncate_to_u128(), Ok(15));

    let diff = eight.checked_sub(&seven).unwrap();
    assert_eq!(diff.truncate_to_u128(), Ok(1));
    assert_eq!(
        seven.checked_sub(&eight).unwrap_err(),
        EngineError::Underflow
    );
}

#[test]
fn decimal_division_truncates_toward_zero() {
    let ten = Decimal::from_u128(10);
    let four = Decimal::from_u128(4);
    let q = ten.checked_div(&four).unwrap();
    // 10 / 4 = 2.5: conversion truncates, never rounds up.
    assert_eq!(q.truncate_to_u128(), Ok(2));
    assert_eq!(q.truncate_to_str(), "2");

    let one = Decimal::from_u128(1);
    let three = Decimal::from_u128(3);
    assert_eq!(one.checked_div(&three).unwrap().truncate_to_u128(), Ok(0));

    assert_eq!(
        ten.checked_div(&Decimal::zero()).unwrap_err(),
        EngineError::DivideByZero
    );
}

#[test]
fn decimal_truncate_to_str_is_canonical() {
    assert_eq!(Decimal::zero().truncate_to_str(), "0");
    assert_eq!(Decimal::from_u128(90210).truncate_to_str(), "90210");
    assert_eq!(Decimal::parse("00100.77").unwrap().truncate_to_str(), "100");
}

#[test]
fn decimal_power_and_multiplier() {
    assert_eq!(
        get_num_by_decimal(18).unwrap().truncate_to_u128(),
        Ok(1_000_000_000_000_000_000)
    );
    assert_eq!(
        get_per_share_multiplier().truncate_to_u128(),
        Ok(1_000_000_000_000_000_000)
    );
    // ten to the thirty-ninth exceeds the u128 range
    assert_eq!(
        get_num_by_decimal(39).unwrap().truncate_to_u128().unwrap_err(),
        EngineError::Overflow
    );
}

#[test]
fn unknown_pool_type_rejected_everywhere() {
    let mut pool = pool_with(PoolType::Unknown, 10, 1000);
    let mut user = user_with("P#1");
    user.staked = 5;
    pool.total_staked = 5;
    assert_eq!(
        update_pool(&mut pool, 5, 3).unwrap_err(),
        EngineError::UnknownPoolType
    );
    assert_eq!(
        withdraw_user_reward(&mut user, &mut pool, 3).unwrap_err(),
        EngineError::UnknownPoolType
    );
    assert_eq!(
        update_user_stake(&mut user, &pool, 3).unwrap_err(),
        EngineError::UnknownPoolType
    );
    assert_eq!(
        query_reward(user, pool, 5, 3).unwrap_err(),
        EngineError::UnknownPoolType
    );
}

#[test]
fn zero_stake_always_no_staked() {
    // the pool id comes back lowercased by the withdrawal
    let mut pool = pool_with(PoolType::RateCapped, 10, 1000);
    let mut user = user_with("MiXeD#7");
    assert_eq!(
        withdraw_user_reward(&mut user, &mut pool, 3).unwrap_err(),
        EngineError::NoStaked("mixed#7".to_string())
    );
    // still rejected after blocks pass with no stake
    assert_eq!(update_pool(&mut pool, 50, 3), Ok(()));
    assert_eq!(
        withdraw_user_reward(&mut user, &mut pool, 3).unwrap_err(),
        EngineError::NoStaked("mixed#7".to_string())
    );
    assert_eq!(user.reward, 0);
}

#[test]
fn update_pool_same_block_is_noop() {
    let mut pool = pool_with(PoolType::RateCapped, 10, 100000);
    let mut user = user_with("p#1");
    user.staked = 10;
    pool.total_staked = 10;
    assert_eq!(update_pool(&mut pool, 4, 3), Ok(()));
    assert_eq!(update_user_stake(&mut user, &pool, 3), Ok(()));
    assert_eq!(update_pool(&mut pool, 9, 3), Ok(()));
    let minted = pool.minted_total;
    let acc = pool.acc_reward_per_share.clone();
    // a second roll to the same block changes neither figure
    assert_eq!(update_pool(&mut pool, 9, 3), Ok(()));
    assert_eq!(pool.minted_total, minted);
    assert_eq!(pool.acc_reward_per_share, acc);
    assert_eq!(pool.last_update_block, 9);
}

#[test]
fn stale_block_is_ignored() {
    // the block height only ever moves forward: replaying an older block
    // mints nothing and leaves the whole record untouched
    let mut pool = pool_with(PoolType::RateCapped, 10, 100000);
    pool.total_staked = 10;
    assert_eq!(update_pool(&mut pool, 10, 3), Ok(()));
    let snapshot = pool.clone();
    assert_eq!(update_pool(&mut pool, 5, 3), Ok(()));
    assert_eq!(pool.last_update_block, 10);
    assert_eq!(pool.minted_total, snapshot.minted_total);
    assert_eq!(pool.acc_reward_per_share, snapshot.acc_reward_per_share);
}

#[test]
fn no_double_credit_after_rebase() {
    let mut pool = pool_with(PoolType::RateCapped, 10, 100000);
    let mut user = user_with("p#1");
    user.staked = 10;
    pool.total_staked = 10;
    assert_eq!(update_user_stake(&mut user, &pool, 3), Ok(()));
    assert_eq!(update_pool(&mut pool, 7, 3), Ok(()));
    let first = withdraw_user_reward(&mut user, &mut pool, 3).unwrap();
    assert_eq!(first, 70);
    assert_eq!(user.reward, 70);
    assert_eq!(update_user_stake(&mut user, &pool, 3), Ok(()));
    // no new block was applied, so nothing further is owed
    let second = withdraw_user_reward(&mut user, &mut pool, 3).unwrap();
    assert_eq!(second, 0);
    assert_eq!(user.reward, 70);
}

#[test]
fn reward_is_monotonic_across_calls() {
    let mut pool = pool_with(PoolType::FixedRate, 100, 10000);
    let mut user = user_with("p#1");
    user.staked = 1000;
    pool.total_staked = 1000;
    assert_eq!(update_user_stake(&mut user, &pool, 3), Ok(()));
    let mut last = user.reward;
    for block in [2u64, 5, 5, 9, 40, 41] {
        assert_eq!(update_pool(&mut pool, block, 3), Ok(()));
        let _ = withdraw_user_reward(&mut user, &mut pool, 3).unwrap();
        assert!(user.reward >= last);
        last = user.reward;
        assert_eq!(update_user_stake(&mut user, &pool, 3), Ok(()));
        assert!(pool.minted_total <= pool.max_mintable);
    }
}

#[test]
fn fixed_rate_first_credit() {
    // fixed-rate pool at rate 10 (three emission decimals) and cap 10000:
    // one staked unit over one block earns exactly the per-unit rate
    let mut pool = pool_with(PoolType::FixedRate, 10 * 1000, 10000 * 1000);
    let mut user = user_with("p#1");
    assert_eq!(update_pool(&mut pool, 1, 3), Ok(()));
    assert_eq!(
        withdraw_user_reward(&mut user, &mut pool, 3).unwrap_err(),
        EngineError::NoStaked("p#1".to_string())
    );
    assert_eq!(update_pool(&mut pool, 2, 3), Ok(()));
    user.staked += 1;
    pool.total_staked += 1;
    assert_eq!(update_user_stake(&mut user, &pool, 3), Ok(()));

    assert_eq!(update_pool(&mut pool, 3, 3), Ok(()));
    let pending = withdraw_user_reward(&mut user, &mut pool, 3).unwrap();
    assert_eq!(pending, 10);
    assert_eq!(pool.minted_total, 10);
    assert_eq!(user.reward, 10);
}

#[test]
fn rate_capped_block_jump() {
    // rate-capped pool at rate 10 (three emission decimals), cap 10000: a
    // single staker earns the whole emission over a jump of seven blocks
    let mut pool = pool_with(PoolType::RateCapped, 10 * 1000, 10000 * 1000);
    let mut user = user_with("p#1");
    assert_eq!(update_pool(&mut pool, 2, 3), Ok(()));
    user.staked = 10;
    pool.total_staked = 10;
    assert_eq!(update_user_stake(&mut user, &pool, 3), Ok(()));
    assert_eq!(update_pool(&mut pool, 3, 3), Ok(()));
    let first = withdraw_user_reward(&mut user, &mut pool, 3).unwrap();
    assert_eq!(first, 10000);
    assert_eq!(update_user_stake(&mut user, &pool, 3), Ok(()));

    assert_eq!(update_pool(&mut pool, 10, 3), Ok(()));
    let pending = withdraw_user_reward(&mut user, &mut pool, 3).unwrap();
    assert_eq!(pending, 70000);
    assert_eq!(pool.minted_total, 80000);
}

#[test]
fn cap_clamps_exactly_and_stops_accrual() {
    // within one emission of the cap: the effective reward is clamped to
    // exactly the remaining room, and afterwards nothing accrues, however
    // far the block height jumps
    let mut pool = pool_with(PoolType::RateCapped, 100, 1000);
    pool.minted_total = 950;
    pool.total_staked = 10;
    let mut user = user_with("p#1");
    user.staked = 10;
    assert_eq!(update_user_stake(&mut user, &pool, 3), Ok(()));

    assert_eq!(update_pool(&mut pool, 1, 3), Ok(()));
    assert_eq!(pool.minted_total, 1000);

    let acc = pool.acc_reward_per_share.clone();
    assert_eq!(update_pool(&mut pool, 1_000_000, 3), Ok(()));
    assert_eq!(pool.minted_total, 1000);
    assert_eq!(pool.acc_reward_per_share, acc);

    // the clamped amount was credited in full to the lone staker
    let pending = withdraw_user_reward(&mut user, &mut pool, 3).unwrap();
    assert_eq!(pending, 50);
}

#[test]
fn withdraw_reports_inconsistent_debt() {
    // a reward debt above the entitlement is an arithmetic inconsistency
    let mut pool = pool_with(PoolType::RateCapped, 10, 1000);
    pool.total_staked = 5;
    let mut user = user_with("p#1");
    user.staked = 5;
    user.reward_debt = 40;
    assert_eq!(update_pool(&mut pool, 2, 3), Ok(()));
    assert_eq!(
        withdraw_user_reward(&mut user, &mut pool, 3).unwrap_err(),
        EngineError::Underflow
    );
}

#[test]
fn withdraw_reports_overflowing_credit() {
    // a credit that cannot fit the integer range fails and changes nothing
    let mut pool = pool_with(PoolType::FixedRate, u128::MAX / 2, u128::MAX);
    pool.total_staked = 1_000_000;
    let mut user = user_with("p#1");
    user.staked = 1_000_000;
    user.reward = u128::MAX;
    assert_eq!(update_pool(&mut pool, 2, 0), Ok(()));
    assert_eq!(
        withdraw_user_reward(&mut user, &mut pool, 0).unwrap_err(),
        EngineError::Overflow
    );
    assert_eq!(user.reward, u128::MAX);
}

#[test]
fn query_reward_previews_without_commitment() {
    let mut pool = pool_with(PoolType::FixedRate, 100, 100000);
    let mut user = user_with("p#1");
    user.staked = 2000;
    pool.total_staked = 2000;
    assert_eq!(update_user_stake(&mut user, &pool, 3), Ok(()));
    let preview = query_reward(user.clone(), pool.clone(), 11, 3).unwrap();
    // the caller's records are untouched; committing yields the same sum
    assert_eq!(pool.last_update_block, 0);
    assert_eq!(user.reward, 0);
    assert_eq!(update_pool(&mut pool, 11, 3), Ok(()));
    let committed = withdraw_user_reward(&mut user, &mut pool, 3).unwrap();
    assert_eq!(preview, committed);
    assert_eq!(preview, 2200);
}
