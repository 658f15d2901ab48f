use staking_pool::staking::{Error, StakeInfo, StakingContract, TokenInterface};
use staking_pool::token::TokenContract;

const ADMIN: u64 = 1;
const USER: u64 = 2;
const TOKEN_ID: u64 = 10;
const POOL_ID: u64 = 20;

struct Setup {
    now: u64,
    user: u64,
    pool_addr: u64,
    pool: StakingContract,
    token: TokenContract,
}

fn setup() -> Setup {
    // Deploy token
    let mut token = TokenContract::new(TOKEN_ID);
    token
        .init(ADMIN, 7, String::from("Stake"), String::from("STK"))
        .unwrap();

    // Deploy staking pool
    let mut pool = StakingContract::new();
    pool.init(TOKEN_ID).unwrap();

    // Mint tokens to user
    token.mint(USER, 10_000).unwrap();

    Setup { now: 0, user: USER, pool_addr: POOL_ID, pool, token }
}

#[test]
fn stake_locks_tokens_into_pool() {
    let mut s = setup();
    s.pool.stake(&mut s.token, s.user, s.pool_addr, 500, s.now).unwrap();
    assert_eq!(s.pool.staked(s.user), 500);
    assert_eq!(s.token.balance(s.user), 9_500);
    assert_eq!(s.token.balance(s.pool_addr), 500);
    assert_eq!(s.pool.total_staked(), 500);
}

#[test]
fn unstake_returns_tokens() {
    let mut s = setup();
    s.pool.stake(&mut s.token, s.user, s.pool_addr, 800, s.now).unwrap();
    s.pool.unstake(&mut s.token, s.user, s.pool_addr, 300, s.now).unwrap();
    assert_eq!(s.pool.staked(s.user), 500);
    assert_eq!(s.token.balance(s.user), 9_500);
    assert_eq!(s.token.balance(s.pool_addr), 500);
}

#[test]
fn rewards_accrue_over_time() {
    let mut s = setup();
    s.pool.stake(&mut s.token, s.user, s.pool_addr, 1_000, s.now).unwrap();

    // Advance ledger time
    s.now += 10_000;

    let pts = s.pool.pending_points(s.user, s.now);
    // amount * elapsed * rate / SCALE = 1000 * 10000 * 100 / 1e9 = 1
    assert!(pts >= 1);
}

#[test]
fn double_init_rejected() {
    let mut s = setup();
    let res = s.pool.init(s.pool_addr);
    assert!(res.is_err());
}

#[test]
fn unstake_without_stake_fails() {
    let mut s = setup();
    let res = s.pool.unstake(&mut s.token, s.user, s.pool_addr, 100, s.now);
    assert!(res.is_err());
}

#[test]
fn cannot_unstake_more_than_staked() {
    let mut s = setup();
    s.pool.stake(&mut s.token, s.user, s.pool_addr, 100, s.now).unwrap();
    let res = s.pool.unstake(&mut s.token, s.user, s.pool_addr, 500, s.now);
    assert!(res.is_err());
}

#[test]
fn negative_amount_rejected() {
    let mut s = setup();
    let res = s.pool.stake(&mut s.token, s.user, s.pool_addr, -1, s.now);
    assert!(res.is_err());
}

#[test]
fn claim_settles_pending_into_points() {
    let mut s = setup();
    s.pool.stake(&mut s.token, s.user, s.pool_addr, 10_000, s.now).unwrap();
    s.now += 1_000_000;
    let pts = s.pool.claim(s.user, s.now).unwrap();
    assert!(pts > 0);
}

// ---- further scenarios ----

#[test]
fn reward_formula_exact_values() {
    let mut s = setup();
    s.pool.stake(&mut s.token, s.user, s.pool_addr, 1_000, 0).unwrap();
    assert_eq!(s.pool.pending_points(s.user, 10_000), 1);
    assert_eq!(s.pool.pending_points(s.user, 9_999), 0);
    assert_eq!(s.pool.pending_points(s.user, 0), 0);
    assert_eq!(s.pool.pending_points(s.user, 1_000_000), 100);
}

#[test]
fn pending_points_before_since_is_zero() {
    let mut s = setup();
    s.pool.stake(&mut s.token, s.user, s.pool_addr, 1_000, 50_000).unwrap();
    // Time before the stake counts as no time at all.
    assert_eq!(s.pool.pending_points(s.user, 10), 0);
}

#[test]
fn claim_answers_pending_points_and_keeps_them() {
    let mut s = setup();
    s.pool.stake(&mut s.token, s.user, s.pool_addr, 10_000, 0).unwrap();
    let pending = s.pool.pending_points(s.user, 1_000_000);
    assert_eq!(pending, 1_000);
    assert_eq!(s.pool.claim(s.user, 1_000_000), Ok(1_000));
    assert_eq!(s.pool.pending_points(s.user, 1_000_000), 1_000);
    // A second claim at the same time adds nothing.
    assert_eq!(s.pool.claim(s.user, 1_000_000), Ok(1_000));
    assert_eq!(s.pool.claim(s.user, 2_000_000), Ok(2_000));
}

#[test]
fn restaking_keeps_pending_points() {
    let mut s = setup();
    s.pool.stake(&mut s.token, s.user, s.pool_addr, 1_000, 0).unwrap();
    let before = s.pool.pending_points(s.user, 1_000_000);
    assert_eq!(before, 100);
    assert_eq!(s.pool.stake(&mut s.token, s.user, s.pool_addr, 1_000, 1_000_000), Ok(2_000));
    assert_eq!(s.pool.pending_points(s.user, 1_000_000), before);
    // From now on the larger stake earns.
    assert_eq!(s.pool.pending_points(s.user, 2_000_000), 100 + 200);
}

#[test]
fn unstake_keeps_pending_points() {
    let mut s = setup();
    s.pool.stake(&mut s.token, s.user, s.pool_addr, 2_000, 0).unwrap();
    assert_eq!(s.pool.unstake(&mut s.token, s.user, s.pool_addr, 500, 1_000_000), Ok(1_500));
    assert_eq!(s.pool.pending_points(s.user, 1_000_000), 200);
    assert_eq!(s.pool.total_staked(), 1_500);
}

#[test]
fn stake_then_unstake_round_trip() {
    let mut s = setup();
    s.pool.stake(&mut s.token, s.user, s.pool_addr, 700, 0).unwrap();
    let staked = s.pool.staked(s.user);
    let total = s.pool.total_staked();
    let pending = s.pool.pending_points(s.user, 5_000_000);
    s.pool.stake(&mut s.token, s.user, s.pool_addr, 300, 5_000_000).unwrap();
    assert_eq!(s.pool.unstake(&mut s.token, s.user, s.pool_addr, 300, 5_000_000), Ok(staked));
    assert_eq!(s.pool.staked(s.user), staked);
    assert_eq!(s.pool.total_staked(), total);
    assert_eq!(s.pool.pending_points(s.user, 5_000_000), pending);
    assert_eq!(s.token.balance(s.user), 9_300);
}

#[test]
fn total_staked_adds_up_over_users() {
    let mut s = setup();
    s.token.mint(3, 5_000).unwrap();
    s.pool.stake(&mut s.token, s.user, s.pool_addr, 400, 0).unwrap();
    s.pool.stake(&mut s.token, 3, s.pool_addr, 1_100, 0).unwrap();
    assert_eq!(s.pool.total_staked(), 1_500);
    s.pool.unstake(&mut s.token, 3, s.pool_addr, 100, 0).unwrap();
    assert_eq!(s.pool.total_staked(), 1_400);
    assert_eq!(s.pool.staked(3), 1_000);
    assert_eq!(s.pool.staked(s.user), 400);
    assert_eq!(s.token.balance(s.pool_addr), 1_400);
}

#[test]
fn error_variants() {
    let mut token = TokenContract::new(TOKEN_ID);
    token.init(ADMIN, 7, String::new(), String::new()).unwrap();
    token.mint(USER, 1_000).unwrap();
    let mut pool = StakingContract::new();
    assert_eq!(pool.token(), Err(Error::NotInitialized));
    assert_eq!(pool.stake(&mut token, USER, POOL_ID, 10, 0), Err(Error::NotInitialized));
    assert_eq!(pool.unstake(&mut token, USER, POOL_ID, 10, 0), Err(Error::NotInitialized));
    assert_eq!(pool.init(TOKEN_ID), Ok(()));
    assert_eq!(pool.token(), Ok(TOKEN_ID));
    assert_eq!(pool.init(TOKEN_ID), Err(Error::AlreadyInitialized));
    assert_eq!(pool.stake(&mut token, USER, POOL_ID, 0, 0), Err(Error::NegativeAmount));
    assert_eq!(pool.unstake(&mut token, USER, POOL_ID, -5, 0), Err(Error::NegativeAmount));
    assert_eq!(pool.unstake(&mut token, USER, POOL_ID, 5, 0), Err(Error::NothingStaked));
    assert_eq!(pool.stake(&mut token, USER, POOL_ID, 5, 0), Ok(5));
    assert_eq!(pool.unstake(&mut token, USER, POOL_ID, 6, 0), Err(Error::InsufficientStake));
    assert_eq!(pool.unstake(&mut token, USER, POOL_ID, 5, 0), Ok(0));
    // An emptied stake is still a stake: asking for more is insufficient, not absent.
    assert_eq!(pool.unstake(&mut token, USER, POOL_ID, 1, 0), Err(Error::InsufficientStake));
    // Refusals moved no tokens.
    assert_eq!(token.balance(USER), 1_000);
    assert_eq!(token.balance(POOL_ID), 0);
}

#[test]
fn views_default_to_zero() {
    let s = setup();
    assert_eq!(s.pool.staked(99), 0);
    assert_eq!(s.pool.pending_points(99, 123_456), 0);
    assert_eq!(StakingContract::new().total_staked(), 0);
    let mut pool = StakingContract::new();
    assert_eq!(pool.claim(99, 5), Ok(0));
}

#[test]
fn token_interface_moves_balances() {
    let mut token = TokenContract::new(TOKEN_ID);
    token.init(ADMIN, 7, String::new(), String::new()).unwrap();
    token.mint(USER, 50).unwrap();
    TokenInterface::transfer(&mut token, USER, 7, 20);
    assert_eq!(TokenInterface::balance(&token, USER), 30);
    assert_eq!(TokenInterface::balance(&token, 7), 20);
}

#[test]
fn pool_stored_entries_round_trip() {
    let pool = StakingContract::from_stored(
        Some(TOKEN_ID),
        900,
        vec![(USER, StakeInfo { amount: 100, since: 5 }), (USER, StakeInfo { amount: 900, since: 0 })],
        vec![(USER, 7)],
    );
    assert_eq!(pool.token(), Ok(TOKEN_ID));
    assert_eq!(pool.total_staked(), 900);
    assert_eq!(pool.stake_info(USER), Some(StakeInfo { amount: 900, since: 0 }));
    assert_eq!(pool.points_entry(USER), Some(7));
    assert_eq!(pool.stake_info(3), None);
    assert_eq!(pool.points_entry(3), None);
    // 7 settled + 900 * 2_000_000 * 100 / 1e9 = 7 + 180
    assert_eq!(pool.pending_points(USER, 2_000_000), 187);
}

#[test]
fn settle_writes_entries() {
    let mut s = setup();
    s.pool.stake(&mut s.token, s.user, s.pool_addr, 1_000, 0).unwrap();
    assert_eq!(s.pool.points_entry(s.user), None);
    s.pool.claim(s.user, 10_000).unwrap();
    assert_eq!(s.pool.points_entry(s.user), Some(1));
    assert_eq!(s.pool.stake_info(s.user).unwrap().since, 10_000);
}

#[test]
fn pool_overflow_guards() {
    let big = StakingContract::from_stored(
        Some(TOKEN_ID),
        i128::MAX,
        vec![(USER, StakeInfo { amount: i128::MAX, since: 0 })],
        vec![],
    );
    assert!(big.accrual_fits(USER, 0));
    assert!(!big.accrual_fits(USER, 1));
    assert!(big.accrual_fits(3, 1_000));
    assert!(!big.stake_fits(3, 1, 0));
    assert!(big.stake_fits(3, 0, 0));
    assert!(big.unstake_fits(USER, 1, 0));
    assert!(!big.unstake_fits(USER, 1, 10));
    let low = StakingContract::from_stored(
        Some(TOKEN_ID),
        i128::MIN + 1,
        vec![(USER, StakeInfo { amount: 5, since: 0 })],
        vec![],
    );
    assert!(!low.unstake_fits(USER, 2, 0));
    assert!(low.unstake_fits(USER, 1, 0));
    let s = setup();
    assert!(s.pool.stake_fits(s.user, 500, 0));
}

#[test]
fn pending_points_grow_with_time() {
    let mut s = setup();
    s.pool.stake(&mut s.token, s.user, s.pool_addr, 3_000, 100).unwrap();
    let mut last = 0;
    for t in [100u64, 1_000, 10_000, 333_433, 1_000_100, 50_000_000] {
        let p = s.pool.pending_points(s.user, t);
        assert!(p >= last);
        last = p;
    }
    assert_eq!(last, 3_000 * (50_000_000 - 100) * 100 / 1_000_000_000);
}

#[test]
fn claimed_points_never_decrease_over_history() {
    let mut s = setup();
    s.token.mint(3, 5_000).unwrap();
    s.pool.stake(&mut s.token, s.user, s.pool_addr, 2_000, 0).unwrap();
    let p1 = s.pool.claim(s.user, 1_000_000).unwrap();
    assert_eq!(p1, 200);
    s.pool.stake(&mut s.token, 3, s.pool_addr, 4_000, 1_500_000).unwrap();
    s.pool.unstake(&mut s.token, s.user, s.pool_addr, 2_000, 2_000_000).unwrap();
    let p2 = s.pool.claim(s.user, 3_000_000).unwrap();
    assert!(p2 >= p1);
    assert_eq!(p2, 400);
    s.pool.claim(3, 4_000_000).unwrap();
    s.pool.stake(&mut s.token, s.user, s.pool_addr, 500, 5_000_000).unwrap();
    let p3 = s.pool.claim(s.user, 5_000_000).unwrap();
    assert!(p3 >= p2);
    assert_eq!(p3, 400);
}

#[test]
fn stake_keeps_token_apart_from_balances() {
    let mut s = setup();
    s.token.faucet(s.user).unwrap();
    s.pool.stake(&mut s.token, s.user, s.pool_addr, 500, 0).unwrap();
    s.pool.unstake(&mut s.token, s.user, s.pool_addr, 200, 10).unwrap();
    assert_eq!(s.token.address(), TOKEN_ID);
    assert_eq!(s.token.decimals(), 7);
    assert_eq!(s.token.name(), String::from("Stake"));
    assert_eq!(s.token.symbol(), String::from("STK"));
    assert!(s.token.faucet_claimed(s.user));
    assert_eq!(s.pool.token(), Ok(s.token.address()));
}
