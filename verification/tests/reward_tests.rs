use reward_engine::EngineError;
use reward_engine::Pool;
use reward_engine::PoolType;
use reward_engine::User;
use reward_engine::get_num_by_decimal;
use reward_engine::query_reward;
use reward_engine::update_pool;
use reward_engine::update_user_stake;
use reward_engine::withdraw_user_reward;

const STAKED_DECIMAL: u8 = 3;
const ERATE_DECIMAL: u8 = 3;

fn base_of(decimal: u8) -> u128 {
    get_num_by_decimal(decimal)
        .unwrap()
        .truncate_to_u128()
        .unwrap()
}

fn new_pool(pool_type: PoolType, erate_new: u128, dmax: u128) -> Pool {
    Pool {
        pool_type,
        emission_rate: erate_new,
        total_staked: 0,
        minted_total: 0,
        max_mintable: dmax,
        acc_reward_per_share: "0".to_string(),
        last_update_block: 0,
    }
}

fn new_user(pid: &str) -> User {
    User {
        pid: pid.to_string(),
        staked: 0,
        reward: 0,
        reward_debt: 0,
        latest_updated_block: 0,
    }
}

fn do_one_case(
    user: &mut User,
    pool: &mut Pool,
    block_mum: u64,
    stake_alter: u128,
    is_add: bool,
    expect_user_remain_reward: u128,
    expert_user_staked: u128,
    expect_pool_staked: u128,
    expect_pool_minted: u128,
    expect_withdraw_reward_result: Result<u128, EngineError>,
    expect_update_stake_result: Result<(), EngineError>,
) {
    assert_eq!(update_pool(pool, block_mum, STAKED_DECIMAL), Ok(()));

    let result = withdraw_user_reward(user, pool, STAKED_DECIMAL);
    match result {
        Ok(value) => {
            assert_eq!(value, expect_withdraw_reward_result.clone().unwrap());
        }
        Err(err) => {
            println!("err:{:?}", err);
            assert_eq!(err, expect_withdraw_reward_result.clone().unwrap_err())
        }
    }

    if is_add {
        user.staked += stake_alter;
        pool.total_staked += stake_alter;
    } else {
        user.staked -= stake_alter;
        pool.total_staked -= stake_alter;
    }
    let u_result = update_user_stake(user, pool, STAKED_DECIMAL);
    match u_result {
        Ok(_) => {}
        Err(err) => {
            println!("err:{:?}", err);
            assert_eq!(err, expect_update_stake_result.clone().unwrap_err())
        }
    }

    assert_eq!(user.reward, expect_user_remain_reward);
    assert_eq!(user.staked, expert_user_staked);
    assert_eq!(pool.total_staked, expect_pool_staked);
    assert_eq!(pool.minted_total, expect_pool_minted);
    assert_eq!(pool.last_update_block, block_mum);
}

#[test]
fn test_hello() {
    let stake_base = base_of(STAKED_DECIMAL);
    let erate_base = base_of(ERATE_DECIMAL);

    let pid = "Bca1DaBca1D#1";
    let mut pool = new_pool(PoolType::FixedRate, 1 * erate_base, 100 * erate_base);
    let mut user = new_user(pid);

    //stake, no reward
    {
        assert_eq!(update_pool(&mut pool, 1, STAKED_DECIMAL), Ok(()));
        assert_eq!(
            withdraw_user_reward(&mut user, &mut pool, STAKED_DECIMAL).expect_err(""),
            EngineError::NoStaked("bca1dabca1d#1".to_string())
        );
        user.staked += 2 * stake_base;
        pool.total_staked += 2 * stake_base;
        assert_eq!(update_user_stake(&mut user, &pool, STAKED_DECIMAL), Ok(()));
    }

    //withdraw, has reward
    {
        assert_eq!(update_pool(&mut pool, 2, STAKED_DECIMAL), Ok(()));
        assert_eq!(
            withdraw_user_reward(&mut user, &mut pool, STAKED_DECIMAL).unwrap(),
            2 * erate_base
        );
        user.staked -= 1 * stake_base;
        pool.total_staked -= 1 * stake_base;
        assert_eq!(update_user_stake(&mut user, &pool, STAKED_DECIMAL), Ok(()));
    }

    // query reward
    {
        assert_eq!(
            query_reward(user, pool, 100, STAKED_DECIMAL).unwrap(),
            98 * erate_base
        );
    }
}

#[test]
fn test_fix_one_user() {
    let stake_base = base_of(STAKED_DECIMAL);
    let erate_base = base_of(ERATE_DECIMAL);

    let pid = "Bca1DaBca1D#1";
    let mut pool = new_pool(PoolType::FixedRate, 10 * erate_base, 10000 * erate_base);
    let mut user = new_user(pid);
    let no_staked = Err(EngineError::NoStaked(pid.to_lowercase()));

    // case-1-A deposit 0
    do_one_case(
        &mut user,
        &mut pool,
        1,
        0,
        true,
        0,
        0,
        0,
        0,
        no_staked.clone(),
        Ok(()),
    );
    // case-2-A deposit 1
    do_one_case(
        &mut user,
        &mut pool,
        2,
        1,
        true,
        0,
        1,
        1,
        0,
        no_staked.clone(),
        Ok(()),
    );

    // case-3-A deposit 10
    do_one_case(&mut user, &mut pool, 3, 9, true, 10, 10, 10, 10, Ok(10), Ok(()));

    //case-4-A same block
    do_one_case(&mut user, &mut pool, 3, 0, true, 10, 10, 10, 10, Ok(0), Ok(()));

    //case-5-A  jump block
    do_one_case(
        &mut user,
        &mut pool,
        10,
        0 * stake_base,
        true,
        710,
        10,
        10,
        710,
        Ok(700),
        Ok(()),
    );

    //case-6-A deposit 90
    do_one_case(
        &mut user,
        &mut pool,
        11,
        90,
        true,
        810,
        100,
        100,
        810,
        Ok(100),
        Ok(()),
    );

    //case-7-A withdraw 10
    do_one_case(
        &mut user,
        &mut pool,
        12,
        10,
        false,
        1810,
        90,
        90,
        1810,
        Ok(1000),
        Ok(()),
    );

    //case-8-A withdraw 10, jump block
    do_one_case(
        &mut user,
        &mut pool,
        20,
        10,
        false,
        9010,
        80,
        80,
        9010,
        Ok(7200),
        Ok(()),
    );

    //case-9-A ,same block
    do_one_case(
        &mut user,
        &mut pool,
        20,
        0,
        false,
        9010,
        80,
        80,
        9010,
        Ok(0),
        Ok(()),
    );

    //case-11-A withdraw 9
    do_one_case(
        &mut user,
        &mut pool,
        22,
        80,
        false,
        10610,
        0,
        0,
        10610,
        Ok(1600),
        Ok(()),
    );

    //case-13-A do nothing
    do_one_case(
        &mut user,
        &mut pool,
        24,
        0 * stake_base,
        false,
        10610,
        0,
        0,
        10610,
        no_staked.clone(),
        Ok(()),
    );

    //case-14-A deposit 100, jump block
    do_one_case(
        &mut user,
        &mut pool,
        50,
        100 * stake_base,
        true,
        10610,
        100 * stake_base,
        100 * stake_base,
        10610,
        no_staked.clone(),
        Ok(()),
    );

    //case-15-A mint, jump block
    do_one_case(
        &mut user,
        &mut pool,
        100,
        0 * stake_base,
        true,
        10000 * erate_base,
        100 * stake_base,
        100 * stake_base,
        10000 * erate_base,
        Ok(9989390),
        Ok(()),
    );

    //case-16-A mint, same block
    do_one_case(
        &mut user,
        &mut pool,
        100,
        0 * stake_base,
        true,
        10000 * erate_base,
        100 * stake_base,
        100 * stake_base,
        10000 * erate_base,
        Ok(0 * erate_base),
        Ok(()),
    );

    //case-17-A mint, jump block
    do_one_case(
        &mut user,
        &mut pool,
        200,
        0 * stake_base,
        true,
        10000 * erate_base,
        100 * stake_base,
        100 * stake_base,
        10000 * erate_base,
        Ok(0 * erate_base),
        Ok(()),
    );
}

#[test]
fn test_fix_three_user() {
    let _base = base_of(STAKED_DECIMAL);
    let dmax = 1000;
    let erate = 100;

    let pid = "Bca1DaBca1D#1";
    let mut pool = new_pool(PoolType::FixedRate, erate, dmax);
    let mut user_a = new_user(pid);
    let mut user_b = new_user(pid);
    let mut user_c = new_user(pid);
    let no_staked = Err(EngineError::NoStaked(pid.to_lowercase()));

    // case-1-A deposit 100
    do_one_case(
        &mut user_a,
        &mut pool,
        1,
        100,
        true,
        0,
        100,
        100,
        0,
        no_staked.clone(),
        Ok(()),
    );

    // case-2-B deposit 100
    do_one_case(
        &mut user_b,
        &mut pool,
        2,
        100,
        true,
        0,
        100,
        200,
        10,
        no_staked.clone(),
        Ok(()),
    );

    // case-3-C deposit 100
    do_one_case(
        &mut user_c,
        &mut pool,
        3,
        100,
        true,
        0,
        100,
        300,
        30,
        no_staked.clone(),
        Ok(()),
    );

    // case-4-A depoist 100
    do_one_case(&mut user_a, &mut pool, 4, 100, true, 30, 200, 400, 60, Ok(30), Ok(()));

    // case-5-A withdraw 100
    do_one_case(&mut user_a, &mut pool, 4, 100, true, 30, 300, 500, 60, Ok(0), Ok(()));

    // case-6-B depoist 100
    do_one_case(&mut user_b, &mut pool, 4, 100, true, 20, 200, 600, 60, Ok(20), Ok(()));

    // case-7-B withdraw 100
    do_one_case(
        &mut user_b,
        &mut pool,
        4,
        100,
        false,
        20,
        100,
        500,
        60,
        Ok(0),
        Ok(()),
    );

    // case-8-B withdraw 100
    do_one_case(&mut user_b, &mut pool, 4, 100, false, 20, 0, 400, 60, Ok(0), Ok(()));

    // case-9-A, dothing
    do_one_case(&mut user_a, &mut pool, 5, 0, false, 60, 300, 400, 100, Ok(30), Ok(()));

    // case-10-B dothing
    do_one_case(
        &mut user_b,
        &mut pool,
        5,
        0,
        false,
        20,
        0,
        400,
        100,
        no_staked.clone(),
        Ok(()),
    );

    // case-11-C dothing
    do_one_case(&mut user_c, &mut pool, 5, 0, false, 20, 100, 400, 100, Ok(20), Ok(()));

    // case-12-A, depoist 100
    do_one_case(&mut user_a, &mut pool, 6, 100, true, 90, 400, 500, 140, Ok(30), Ok(()));

    // case-13-B depoist 100
    do_one_case(
        &mut user_b,
        &mut pool,
        6,
        100,
        true,
        20,
        100,
        600,
        140,
        no_staked.clone(),
        Ok(()),
    );

    // case-14-C depoist 100
    do_one_case(
        &mut user_c,
        &mut pool,
        6,
        100,
        true,
        30,
        200,
        700,
        140,
        Ok(10),
        Ok(()),
    );
}

#[test]
fn test_pool_one_user() {
    let stake_base = base_of(STAKED_DECIMAL);
    let erate_base = base_of(ERATE_DECIMAL);

    let pid = "Bca1DaBca1D#1";
    let mut pool = new_pool(PoolType::RateCapped, 10 * erate_base, 10000 * erate_base);
    let mut user = new_user(pid);
    let no_staked = Err(EngineError::NoStaked(pid.to_lowercase()));

    // case-1-A deposit 0
    do_one_case(
        &mut user,
        &mut pool,
        1,
        0,
        true,
        0,
        0,
        0,
        0,
        no_staked.clone(),
        Ok(()),
    );
    // case-2-A deposit 1
    do_one_case(
        &mut user,
        &mut pool,
        2,
        1,
        true,
        0,
        1,
        1,
        0,
        no_staked.clone(),
        Ok(()),
    );

    // case-3-A deposit 10
    do_one_case(
        &mut user,
        &mut pool,
        3,
        9,
        true,
        10000,
        10,
        10,
        10000,
        Ok(10000),
        Ok(()),
    );

    //case-4-A same block
    do_one_case(
        &mut user,
        &mut pool,
        3,
        0,
        true,
        10000,
        10,
        10,
        10000,
        Ok(0),
        Ok(()),
    );

    //case-5-A  jump block
    do_one_case(
        &mut user,
        &mut pool,
        10,
        0,
        true,
        80000,
        10,
        10,
        80000,
        Ok(70000),
        Ok(()),
    );

    //case-6-A deposit 90
    do_one_case(
        &mut user,
        &mut pool,
        11,
        90,
        true,
        90000,
        100,
        100,
        90000,
        Ok(10000),
        Ok(()),
    );

    //case-7-A withdraw 10
    do_one_case(
        &mut user,
        &mut pool,
        12,
        10,
        false,
        100000,
        90,
        90,
        100000,
        Ok(10000),
        Ok(()),
    );

    //case-8-A withdraw 10, jump block
    do_one_case(
        &mut user,
        &mut pool,
        20,
        10,
        false,
        179999,
        80,
        80,
        180000,
        Ok(79999),
        Ok(()),
    );

    //case-9-A withdraw 70
    do_one_case(
        &mut user,
        &mut pool,
        21,
        70,
        false,
        189999,
        10,
        10,
        190000,
        Ok(10000),
        Ok(()),
    );

    //case-10-A ,same block
    do_one_case(
        &mut user,
        &mut pool,
        21,
        0,
        false,
        189999,
        10,
        10,
        190000,
        Ok(0),
        Ok(()),
    );

    //case-11-A withdraw 9
    do_one_case(
        &mut user,
        &mut pool,
        22,
        9,
        false,
        199999,
        1,
        1,
        200000,
        Ok(10000),
        Ok(()),
    );

    //case-12-A withdraw  1
    do_one_case(
        &mut user,
        &mut pool,
        23,
        1,
        false,
        209999,
        0,
        0,
        210000,
        Ok(10000),
        Ok(()),
    );

    //case-13-A do nothing
    do_one_case(
        &mut user,
        &mut pool,
        24,
        0,
        false,
        209999,
        0,
        0,
        210000,
        no_staked.clone(),
        Ok(()),
    );

    //case-14-A deposit 100, jump block
    do_one_case(
        &mut user,
        &mut pool,
        50,
        100,
        true,
        209999,
        100,
        100,
        210000,
        no_staked.clone(),
        Ok(()),
    );

    //case-15-A mint, jump block
    do_one_case(
        &mut user,
        &mut pool,
        100,
        0,
        true,
        709999,
        100,
        100,
        710000,
        Ok(500000),
        Ok(()),
    );

    //case-16-A mint, same block
    do_one_case(
        &mut user,
        &mut pool,
        100,
        0,
        true,
        709999,
        100,
        100,
        710000,
        Ok(0),
        Ok(()),
    );

    //case-17-A mint, jump block
    do_one_case(
        &mut user,
        &mut pool,
        999,
        0,
        true,
        9699999,
        100,
        100,
        9700000,
        Ok(8990000),
        Ok(()),
    );

    //case-18-A mint
    do_one_case(
        &mut user,
        &mut pool,
        1050,
        0,
        true,
        9999999,
        100,
        100,
        10000000,
        Ok(300000),
        Ok(()),
    );

    //case-19-A mint, jump block
    do_one_case(
        &mut user,
        &mut pool,
        1080,
        0,
        true,
        9999999,
        100,
        100,
        10000000,
        Ok(0),
        Ok(()),
    );
}

#[test]
fn test_pool_three_user() {}

#[test]
fn test_pool_one_user_18() {}
