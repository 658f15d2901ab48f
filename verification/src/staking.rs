//! A staking pool that locks a SEP-41-style token and accrues reward
//! "points" linearly over time:
//!
//! points = staked_amount * seconds_elapsed * REWARD_RATE / SCALE
//!
//! Staking and unstaking move tokens through a `TokenInterface`, the
//! pool's view of the token contract. Accounts are `u64` ids; the ledger
//! time is passed in as `now`. Authorization, storage and events belong to
//! the host that runs the contract.

use std::collections::HashMap;
use vstd::prelude::*;

use crate::ledger_sum::{lemma_sum_bounds_entry, lemma_sum_insert, map_of_pairs, sum_values};
use crate::token::{TokenContract, TokenState};

verus! {

/// Points per token per second, scaled by `SCALE`.
pub const REWARD_RATE: i128 = 100;

/// The scale of `REWARD_RATE`.
pub const SCALE: i128 = 1_000_000_000;

/// Why a pool operation was refused.
#[derive(Copy, Clone, Debug, PartialEq, Eq, Structural)]
pub enum Error {
    NotInitialized,
    AlreadyInitialized,
    NothingStaked,
    InsufficientStake,
    NegativeAmount,
}

/// One account's stake: the amount locked and the ledger time at which its
/// rewards were last settled.
#[derive(Copy, Clone, Debug, PartialEq, Eq, Structural)]
pub struct StakeInfo {
    pub amount: i128,
    pub since: u64,
}

/// The abstract state of a staking pool.
pub struct PoolState {
    /// The token that the pool locks, once initialized.
    pub token: Option<u64>,
    pub total_staked: i128,
    pub stakes: Map<u64, StakeInfo>,
    /// Settled points; an id without an entry holds 0.
    pub points: Map<u64, i128>,
}

/// Seconds from `since` to `now`, 0 when `now` is not later.
pub open spec fn elapsed(since: u64, now: u64) -> int {
    if now > since {
        now - since
    } else {
        0
    }
}

/// The points that `amount` earns from `since` to `now`.
pub open spec fn reward(amount: i128, since: u64, now: u64) -> int {
    if amount > 0 {
        amount * elapsed(since, now) * REWARD_RATE / (SCALE as int)
    } else {
        0
    }
}

/// The amount of a stake.
pub open spec fn stake_amount(info: StakeInfo) -> int {
    info.amount as int
}

impl PoolState {
    /// A freshly deployed, uninitialized pool.
    pub open spec fn fresh() -> PoolState {
        PoolState { token: None, total_staked: 0, stakes: Map::empty(), points: Map::empty() }
    }

    pub open spec fn staked_of(self, user: u64) -> i128 {
        if self.stakes.dom().contains(user) {
            self.stakes[user].amount
        } else {
            0
        }
    }

    pub open spec fn points_of(self, user: u64) -> i128 {
        if self.points.dom().contains(user) {
            self.points[user]
        } else {
            0
        }
    }

    /// The points that `user`'s stake has earned since it was last settled.
    pub open spec fn unsettled(self, user: u64, now: u64) -> int {
        if self.stakes.dom().contains(user) {
            reward(self.stakes[user].amount, self.stakes[user].since, now)
        } else {
            0
        }
    }

    /// Settled plus unsettled points of `user` at time `now`.
    pub open spec fn pending_points(self, user: u64, now: u64) -> int {
        self.points_of(user) + self.unsettled(user, now)
    }

    /// Reachable pool states: finitely many stakes, none negative, whose
    /// amounts add up to `total_staked`; no negative points; nothing staked
    /// before initialization.
    pub open spec fn inv(self) -> bool {
        &&& self.stakes.dom().finite()
        &&& forall|u: u64| self.stakes.dom().contains(u) ==> #[trigger] self.stakes[u].amount >= 0
        &&& self.total_staked == sum_values(self.stakes, |i: StakeInfo| stake_amount(i))
        &&& forall|u: u64| self.points.dom().contains(u) ==> #[trigger] self.points[u] >= 0
        &&& self.token is None ==> self.total_staked == 0
    }

    /// Settling `user`'s rewards at `now` stays within `i128`.
    pub open spec fn accrual_fits(self, user: u64, now: u64) -> bool {
        self.stakes.dom().contains(user) && self.stakes[user].amount > 0 ==> {
            let info = self.stakes[user];
            &&& info.amount * elapsed(info.since, now) * REWARD_RATE <= i128::MAX
            &&& self.points_of(user) + reward(info.amount, info.since, now) <= i128::MAX
        }
    }

    /// Moves `user`'s unsettled rewards into their points and restarts the
    /// timer at `now`; nothing for an absent or empty stake.
    pub open spec fn settle(self, user: u64, now: u64) -> PoolState {
        if self.stakes.dom().contains(user) && self.stakes[user].amount > 0 {
            let info = self.stakes[user];
            PoolState {
                points: self.points.insert(
                    user,
                    (self.points_of(user) + reward(info.amount, info.since, now)) as i128,
                ),
                stakes: self.stakes.insert(user, StakeInfo { since: now, ..info }),
                ..self
            }
        } else {
            self
        }
    }

    /// `init`: record the token, once.
    pub open spec fn init(self, token: u64) -> (PoolState, Result<(), Error>) {
        if self.token is Some {
            (self, Err(Error::AlreadyInitialized))
        } else {
            (PoolState { token: Some(token), total_staked: 0, ..self }, Ok(()))
        }
    }

    /// `token`: the token address, once initialized.
    pub open spec fn token_of(self) -> Result<u64, Error> {
        match self.token {
            Some(t) => Ok(t),
            None => Err(Error::NotInitialized),
        }
    }

    /// `stake` stays within `i128`.
    pub open spec fn stake_fits(self, user: u64, amount: i128, now: u64) -> bool {
        amount > 0 && self.token is Some ==> {
            &&& self.accrual_fits(user, now)
            &&& self.staked_of(user) + amount <= i128::MAX
            &&& self.total_staked + amount <= i128::MAX
        }
    }

    /// `stake`: settle, then lock `amount` more for `user`; answers the new stake.
    pub open spec fn stake(self, user: u64, amount: i128, now: u64) -> (PoolState, Result<
        i128,
        Error,
    >) {
        if amount <= 0 {
            (self, Err(Error::NegativeAmount))
        } else if self.token is None {
            (self, Err(Error::NotInitialized))
        } else {
            let settled = self.settle(user, now);
            let new_amount = (settled.staked_of(user) + amount) as i128;
            (
                PoolState {
                    stakes: settled.stakes.insert(user, StakeInfo { amount: new_amount, since: now }),
                    total_staked: (self.total_staked + amount) as i128,
                    ..settled
                },
                Ok(new_amount),
            )
        }
    }

    /// `unstake` stays within `i128`.
    pub open spec fn unstake_fits(self, user: u64, amount: i128, now: u64) -> bool {
        amount > 0 && self.token is Some && self.stakes.dom().contains(user)
            && self.stakes[user].amount >= amount ==> {
            &&& self.accrual_fits(user, now)
            &&& self.total_staked - amount >= i128::MIN
        }
    }

    /// `unstake`: settle, then release `amount` of `user`'s stake; answers
    /// what is left.
    pub open spec fn unstake(self, user: u64, amount: i128, now: u64) -> (PoolState, Result<
        i128,
        Error,
    >) {
        if amount <= 0 {
            (self, Err(Error::NegativeAmount))
        } else if self.token is None {
            (self, Err(Error::NotInitialized))
        } else if !self.stakes.dom().contains(user) {
            (self, Err(Error::NothingStaked))
        } else if self.stakes[user].amount < amount {
            (self, Err(Error::InsufficientStake))
        } else {
            let settled = self.settle(user, now);
            let left = (self.stakes[user].amount - amount) as i128;
            (
                PoolState {
                    stakes: settled.stakes.insert(user, StakeInfo { amount: left, since: now }),
                    total_staked: (self.total_staked - amount) as i128,
                    ..settled
                },
                Ok(left),
            )
        }
    }

    /// `claim`: settle, then answer `user`'s points.
    pub open spec fn claim(self, user: u64, now: u64) -> (PoolState, i128) {
        let settled = self.settle(user, now);
        (settled, settled.points_of(user))
    }
}

} // verus!

verus! {

/// The pool's view of a SEP-41 token: just what staking needs. Any token
/// can implement it; the pool's bookkeeping is proved against these
/// contracts, and `TokenContract` meets them. A token that refuses a
/// transfer makes the whole invocation fail, so the pool asks for a
/// transfer only where `transfer_allowed` holds.
pub trait TokenInterface {
    /// The token contract's own id, as the pool records it at `init`.
    spec fn token_id(&self) -> u64;

    /// The token balance of `id`.
    spec fn balance_view(&self, id: u64) -> i128;

    /// `self` and `other` agree on everything but balances.
    spec fn same_apart_from_balances(&self, other: &Self) -> bool;

    /// Whether `transfer(from, to, amount)` goes through.
    spec fn transfer_allowed(&self, from: u64, to: u64, amount: i128) -> bool;

    /// Moves `amount` from `from` to `to`.
    fn transfer(&mut self, from: u64, to: u64, amount: i128)
        requires
            old(self).transfer_allowed(from, to, amount),
        ensures
            final(self).token_id() == old(self).token_id(),
            final(self).same_apart_from_balances(&*old(self)),
            forall|id: u64| #[trigger]
                final(self).balance_view(id) == old(self).balance_view(id) - (if id == from {
                    amount as int
                } else {
                    0
                }) + (if id == to {
                    amount as int
                } else {
                    0
                }),
    ;

    /// The balance of `id`.
    fn balance(&self, id: u64) -> (b: i128)
        ensures
            b == self.balance_view(id),
    ;
}

impl TokenInterface for TokenContract {
    open spec fn token_id(&self) -> u64 {
        self@.address
    }

    open spec fn same_apart_from_balances(&self, other: &Self) -> bool {
        &&& self@.address == other@.address
        &&& self@.admin == other@.admin
        &&& self@.decimals == other@.decimals
        &&& self@.name == other@.name
        &&& self@.symbol == other@.symbol
        &&& self@.claims == other@.claims
    }

    open spec fn balance_view(&self, id: u64) -> i128 {
        self@.balance_of(id)
    }

    open spec fn transfer_allowed(&self, from: u64, to: u64, amount: i128) -> bool {
        &&& amount >= 0
        &&& self@.balance_of(from) >= amount
        &&& self@.transfer_fits(from, to, amount)
    }

    fn transfer(&mut self, from: u64, to: u64, amount: i128) {
        let _ = TokenContract::transfer(self, from, to, amount);
    }

    fn balance(&self, id: u64) -> (b: i128) {
        TokenContract::balance(self, id)
    }
}

/// The points that `amount` earns from `since` to `now`.
fn accrued(amount: i128, since: u64, now: u64) -> (e: i128)
    requires
        amount > 0,
        amount * elapsed(since, now) * REWARD_RATE <= i128::MAX,
    ensures
        e == reward(amount, since, now),
        e >= 0,
{
    let secs = now.saturating_sub(since) as i128;
    assert(secs == elapsed(since, now));
    assert(0 <= amount * secs <= amount * secs * REWARD_RATE) by (nonlinear_arith)
        requires
            amount > 0,
            secs >= 0,
    ;
    let product = amount * secs * REWARD_RATE;
    assert(product / SCALE >= 0) by (nonlinear_arith)
        requires
            product >= 0,
    ;
    product / SCALE
}

/// A staking pool's state.
pub struct StakingContract {
    token: Option<u64>,
    total_staked: i128,
    stakes: HashMap<u64, StakeInfo>,
    points: HashMap<u64, i128>,
}

impl View for StakingContract {
    type V = PoolState;

    closed spec fn view(&self) -> PoolState {
        PoolState {
            token: self.token,
            total_staked: self.total_staked,
            stakes: self.stakes@,
            points: self.points@,
        }
    }
}

impl StakingContract {
    /// A freshly deployed pool: not initialized, nothing staked.
    pub fn new() -> (c: StakingContract)
        ensures
            c@ == PoolState::fresh(),
    {
        StakingContract {
            token: None,
            total_staked: 0,
            stakes: HashMap::new(),
            points: HashMap::new(),
        }
    }

    /// A pool whose stored entries are the given ones: the state that a host
    /// reloads before an operation. A later pair for the same id wins.
    pub fn from_stored(
        token: Option<u64>,
        total_staked: i128,
        stakes: Vec<(u64, StakeInfo)>,
        points: Vec<(u64, i128)>,
    ) -> (c: StakingContract)
        ensures
            c@ == (PoolState {
                token,
                total_staked,
                stakes: map_of_pairs(stakes@),
                points: map_of_pairs(points@),
            }),
    {
        let mut stake_map: HashMap<u64, StakeInfo> = HashMap::new();
        for i in 0..stakes.len()
            invariant
                stake_map@ == map_of_pairs(stakes@.take(i as int)),
        {
            assert(stakes@.take(i + 1).drop_last() == stakes@.take(i as int));
            let (id, info) = stakes[i];
            stake_map.insert(id, info);
        }
        assert(stakes@.take(stakes.len() as int) == stakes@);
        let mut point_map: HashMap<u64, i128> = HashMap::new();
        for i in 0..points.len()
            invariant
                point_map@ == map_of_pairs(points@.take(i as int)),
        {
            assert(points@.take(i + 1).drop_last() == points@.take(i as int));
            let (id, p) = points[i];
            point_map.insert(id, p);
        }
        assert(points@.take(points.len() as int) == points@);
        StakingContract { token, total_staked, stakes: stake_map, points: point_map }
    }

    /// Records the token to lock and zeroes the total; refused once set.
    pub fn init(&mut self, token: u64) -> (r: Result<(), Error>)
        ensures
            (final(self)@, r) == old(self)@.init(token),
    {
        if self.token.is_some() {
            return Err(Error::AlreadyInitialized);
        }
        self.token = Some(token);
        self.total_staked = 0;
        Ok(())
    }

    /// The token that the pool locks.
    pub fn token(&self) -> (r: Result<u64, Error>)
        ensures
            r == self@.token_of(),
    {
        match self.token {
            Some(t) => Ok(t),
            None => Err(Error::NotInitialized),
        }
    }

    /// The stake stored for `user`, if one is.
    pub fn stake_info(&self, user: u64) -> (r: Option<StakeInfo>)
        ensures
            r == (if self@.stakes.dom().contains(user) {
                Some(self@.stakes[user])
            } else {
                None
            }),
    {
        match self.stakes.get(&user) {
            Some(i) => Some(*i),
            None => None,
        }
    }

    /// The settled points stored for `user`, if any are.
    pub fn points_entry(&self, user: u64) -> (p: Option<i128>)
        ensures
            p == (if self@.points.dom().contains(user) {
                Some(self@.points[user])
            } else {
                None
            }),
    {
        match self.points.get(&user) {
            Some(p) => Some(*p),
            None => None,
        }
    }

    fn points_or_zero(&self, user: u64) -> (p: i128)
        ensures
            p == self@.points_of(user),
    {
        match self.points.get(&user) {
            Some(p) => *p,
            None => 0,
        }
    }

    /// Whether settling `user`'s rewards at `now` stays within `i128`.
    pub fn accrual_fits(&self, user: u64, now: u64) -> (b: bool)
        ensures
            b == self@.accrual_fits(user, now),
    {
        let info = match self.stake_info(user) {
            Some(info) => info,
            None => {
                return true;
            },
        };
        if info.amount <= 0 {
            return true;
        }
        let secs = now.saturating_sub(info.since) as i128;
        assert(secs == elapsed(info.since, now));
        let product = match info.amount.checked_mul(secs) {
            Some(p) => p,
            None => {
                assert(info.amount * secs * REWARD_RATE > i128::MAX) by (nonlinear_arith)
                    requires
                        info.amount * secs > i128::MAX,
                ;
                return false;
            },
        };
        let scaled = match product.checked_mul(REWARD_RATE) {
            Some(q) => q,
            None => {
                return false;
            },
        };
        assert(scaled / SCALE >= 0) by (nonlinear_arith)
            requires
                scaled >= 0,
        ;
        let earned = scaled / SCALE;
        self.points_or_zero(user).checked_add(earned).is_some()
    }

    /// Whether `stake(.., user, .., amount, now)` stays within `i128`.
    pub fn stake_fits(&self, user: u64, amount: i128, now: u64) -> (b: bool)
        ensures
            b == self@.stake_fits(user, amount, now),
    {
        if amount <= 0 || self.token.is_none() {
            return true;
        }
        self.accrual_fits(user, now) && self.staked(user).checked_add(amount).is_some()
            && self.total_staked.checked_add(amount).is_some()
    }

    /// Whether `unstake(.., user, .., amount, now)` stays within `i128`.
    pub fn unstake_fits(&self, user: u64, amount: i128, now: u64) -> (b: bool)
        ensures
            b == self@.unstake_fits(user, amount, now),
    {
        if amount <= 0 || self.token.is_none() {
            return true;
        }
        match self.stake_info(user) {
            None => true,
            Some(info) => {
                if info.amount < amount {
                    true
                } else {
                    self.accrual_fits(user, now) && self.total_staked.checked_sub(
                        amount,
                    ).is_some()
                }
            },
        }
    }

    /// Moves `user`'s unsettled rewards into their points and restarts the timer.
    fn settle(&mut self, user: u64, now: u64)
        requires
            old(self)@.accrual_fits(user, now),
        ensures
            final(self)@ == old(self)@.settle(user, now),
    {
        if let Some(info) = self.stake_info(user) {
            if info.amount > 0 {
                let earned = accrued(info.amount, info.since, now);
                let cur = self.points_or_zero(user);
                self.points.insert(user, cur + earned);
                self.stakes.insert(user, StakeInfo { since: now, ..info });
            }
        }
    }

    /// Stakes `amount` more of `user`'s tokens: settles their rewards,
    /// transfers `amount` from `user` to the pool's own id `pool` on
    /// `token`, the token recorded at `init`, and answers the new stake.
    /// The host checks `user`'s authorization.
    pub fn stake<T: TokenInterface>(
        &mut self,
        token: &mut T,
        user: u64,
        pool: u64,
        amount: i128,
        now: u64,
    ) -> (r: Result<i128, Error>)
        requires
            old(self)@.stake_fits(user, amount, now),
            old(self)@.token matches Some(t) ==> t == old(token).token_id(),
            amount > 0 && old(self)@.token is Some ==> old(token).transfer_allowed(
                user,
                pool,
                amount,
            ),
        ensures
            (final(self)@, r) == old(self)@.stake(user, amount, now),
            r is Ok ==> forall|id: u64| #[trigger]
                final(token).balance_view(id) == old(token).balance_view(id) - (if id == user {
                    amount as int
                } else {
                    0
                }) + (if id == pool {
                    amount as int
                } else {
                    0
                }),
            r is Ok ==> final(token).token_id() == old(token).token_id(),
            r is Ok ==> final(token).same_apart_from_balances(&*old(token)),
            r is Err ==> *final(token) == *old(token),
    {
        if amount <= 0 {
            return Err(Error::NegativeAmount);
        }
        if self.token.is_none() {
            return Err(Error::NotInitialized);
        }
        self.settle(user, now);
        token.transfer(user, pool, amount);
        let cur = match self.stake_info(user) {
            Some(info) => info.amount,
            None => 0,
        };
        let new_amount = cur + amount;
        self.stakes.insert(user, StakeInfo { amount: new_amount, since: now });
        self.total_staked = self.total_staked + amount;
        Ok(new_amount)
    }

    /// Releases `amount` of `user`'s stake: settles their rewards,
    /// transfers `amount` from the pool's own id `pool` back to `user` on
    /// `token`, the token recorded at `init`, and answers what is left.
    /// The host checks `user`'s authorization.
    pub fn unstake<T: TokenInterface>(
        &mut self,
        token: &mut T,
        user: u64,
        pool: u64,
        amount: i128,
        now: u64,
    ) -> (r: Result<i128, Error>)
        requires
            old(self)@.unstake_fits(user, amount, now),
            old(self)@.token matches Some(t) ==> t == old(token).token_id(),
            old(self)@.unstake(user, amount, now).1 is Ok ==> old(token).transfer_allowed(
                pool,
                user,
                amount,
            ),
        ensures
            (final(self)@, r) == old(self)@.unstake(user, amount, now),
            r is Ok ==> forall|id: u64| #[trigger]
                final(token).balance_view(id) == old(token).balance_view(id) - (if id == pool {
                    amount as int
                } else {
                    0
                }) + (if id == user {
                    amount as int
                } else {
                    0
                }),
            r is Ok ==> final(token).token_id() == old(token).token_id(),
            r is Ok ==> final(token).same_apart_from_balances(&*old(token)),
            r is Err ==> *final(token) == *old(token),
    {
        if amount <= 0 {
            return Err(Error::NegativeAmount);
        }
        if self.token.is_none() {
            return Err(Error::NotInitialized);
        }
        let info = match self.stake_info(user) {
            Some(info) => info,
            None => {
                return Err(Error::NothingStaked);
            },
        };
        if info.amount < amount {
            return Err(Error::InsufficientStake);
        }
        self.settle(user, now);
        token.transfer(pool, user, amount);
        let left = info.amount - amount;
        self.stakes.insert(user, StakeInfo { amount: left, since: now });
        self.total_staked = self.total_staked - amount;
        Ok(left)
    }

    /// Settles `user`'s rewards and answers their points. The host checks
    /// `user`'s authorization.
    pub fn claim(&mut self, user: u64, now: u64) -> (r: Result<i128, Error>)
        requires
            old(self)@.accrual_fits(user, now),
        ensures
            final(self)@ == old(self)@.claim(user, now).0,
            r == Ok::<i128, Error>(old(self)@.claim(user, now).1),
    {
        self.settle(user, now);
        let pts = self.points_or_zero(user);
        Ok(pts)
    }

    /// `user`'s current stake, 0 where they have none.
    pub fn staked(&self, user: u64) -> (a: i128)
        ensures
            a == self@.staked_of(user),
    {
        match self.stake_info(user) {
            Some(info) => info.amount,
            None => 0,
        }
    }

    /// `user`'s settled points plus what their stake has earned since, at `now`.
    pub fn pending_points(&self, user: u64, now: u64) -> (p: i128)
        requires
            self@.accrual_fits(user, now),
        ensures
            p == self@.pending_points(user, now),
    {
        let already = self.points_or_zero(user);
        let pending = match self.stake_info(user) {
            Some(info) => {
                if info.amount > 0 {
                    accrued(info.amount, info.since, now)
                } else {
                    0
                }
            },
            None => 0,
        };
        already + pending
    }

    /// The sum of all stakes, as the pool keeps it.
    pub fn total_staked(&self) -> (t: i128)
        ensures
            t == self@.total_staked,
    {
        self.total_staked
    }
}

} // verus!

verus! {

/// Rewards are never negative.
pub proof fn lemma_reward_nonnegative(amount: i128, since: u64, now: u64)
    ensures
        reward(amount, since, now) >= 0,
{
    if amount > 0 {
        let e = elapsed(since, now);
        assert(amount * e * REWARD_RATE / (SCALE as int) >= 0) by (nonlinear_arith)
            requires
                amount > 0,
                e >= 0,
        ;
    }
}

/// The longer a stake stays, the more it earns: rewards never decrease as
/// `now` moves forward.
pub proof fn lemma_reward_grows_with_time(amount: i128, since: u64, now1: u64, now2: u64)
    requires
        now1 <= now2,
    ensures
        reward(amount, since, now1) <= reward(amount, since, now2),
{
    if amount > 0 {
        let e1 = elapsed(since, now1);
        let e2 = elapsed(since, now2);
        assert(e1 <= e2);
        let p1 = amount * e1 * REWARD_RATE;
        let p2 = amount * e2 * REWARD_RATE;
        assert(p1 <= p2) by (nonlinear_arith)
            requires
                amount > 0,
                0 <= e1 <= e2,
                p1 == amount * e1 * REWARD_RATE,
                p2 == amount * e2 * REWARD_RATE,
        ;
        vstd::arithmetic::div_mod::lemma_div_is_ordered(p1, p2, SCALE as int);
    }
}

/// A reward over no time at all is zero.
proof fn lemma_reward_at_start(amount: i128, now: u64)
    ensures
        reward(amount, now, now) == 0,
{
}

/// Settling keeps every stake amount, the total and the invariant, and
/// leaves `user`'s pending points at `now` as they were; other accounts'
/// entries are untouched.
pub proof fn lemma_settle_keeps_pending(s: PoolState, user: u64, now: u64)
    requires
        s.accrual_fits(user, now),
    ensures
        ({
            let t = s.settle(user, now);
            &&& t.pending_points(user, now) == s.pending_points(user, now)
            &&& t.total_staked == s.total_staked
            &&& t.token == s.token
            &&& t.stakes.dom() == s.stakes.dom()
            &&& forall|u: u64| #[trigger] t.staked_of(u) == s.staked_of(u)
            &&& forall|u: u64| u != user ==> #[trigger] t.stakes.dom().contains(u) ==> t.stakes[u]
                == s.stakes[u]
            &&& forall|u: u64| u != user ==> #[trigger] t.points_of(u) == s.points_of(u)
            &&& t.points_of(user) >= s.points_of(user)
            &&& s.inv() ==> t.inv()
        }),
{
    let t = s.settle(user, now);
    lemma_reward_at_start(s.staked_of(user), now);
    if s.stakes.dom().contains(user) {
        lemma_reward_nonnegative(s.stakes[user].amount, s.stakes[user].since, now);
    }
    if s.stakes.dom().contains(user) && s.stakes[user].amount > 0 {
        assert(t.stakes.dom() =~= s.stakes.dom());
        if s.inv() {
            let f = |i: StakeInfo| stake_amount(i);
            lemma_sum_insert(s.stakes, f, user, StakeInfo { since: now, ..s.stakes[user] });
        }
    }
}

} // verus!

verus! {

/// A successful stake adds exactly `amount` to `user`'s stake and to the
/// total, loses none of `user`'s rewards (pending points at `now` are
/// unchanged), leaves every other account alone, and keeps the invariant.
pub proof fn lemma_stake_laws(s: PoolState, user: u64, amount: i128, now: u64)
    requires
        s.inv(),
        s.stake_fits(user, amount, now),
    ensures
        ({
            let (t, r) = s.stake(user, amount, now);
            &&& t.inv()
            &&& r is Ok ==> {
                &&& r == Ok::<i128, Error>(t.staked_of(user))
                &&& t.staked_of(user) == s.staked_of(user) + amount
                &&& t.total_staked == s.total_staked + amount
                &&& t.pending_points(user, now) == s.pending_points(user, now)
            }
            &&& forall|u: u64| u != user ==> #[trigger] t.staked_of(u) == s.staked_of(u)
            &&& forall|u: u64| u != user ==> #[trigger] t.points_of(u) == s.points_of(u)
        }),
{
    let (t, r) = s.stake(user, amount, now);
    if r is Ok {
        let m = s.settle(user, now);
        lemma_settle_keeps_pending(s, user, now);
        let new_info = StakeInfo { amount: (m.staked_of(user) + amount) as i128, since: now };
        lemma_sum_insert(m.stakes, |i: StakeInfo| stake_amount(i), user, new_info);
        lemma_reward_at_start(new_info.amount, now);
        assert(t.stakes.dom().contains(user));
    }
}

/// In every reachable state a stake is at most the total, so an unstake
/// that the stake covers can never take the total below zero.
pub proof fn lemma_unstake_keeps_total_nonnegative(s: PoolState, user: u64, amount: i128)
    requires
        s.inv(),
        s.stakes.dom().contains(user),
        0 < amount <= s.stakes[user].amount,
    ensures
        s.total_staked - amount >= 0,
{
    lemma_sum_bounds_entry(s.stakes, |i: StakeInfo| stake_amount(i), user);
}

/// A successful unstake takes exactly `amount` off `user`'s stake and off
/// the total, loses none of `user`'s rewards, leaves every other account
/// alone, and keeps the invariant.
pub proof fn lemma_unstake_laws(s: PoolState, user: u64, amount: i128, now: u64)
    requires
        s.inv(),
        s.unstake_fits(user, amount, now),
    ensures
        ({
            let (t, r) = s.unstake(user, amount, now);
            &&& t.inv()
            &&& r is Ok ==> {
                &&& r == Ok::<i128, Error>(t.staked_of(user))
                &&& t.staked_of(user) == s.staked_of(user) - amount
                &&& t.total_staked == s.total_staked - amount
                &&& t.pending_points(user, now) == s.pending_points(user, now)
            }
            &&& forall|u: u64| u != user ==> #[trigger] t.staked_of(u) == s.staked_of(u)
            &&& forall|u: u64| u != user ==> #[trigger] t.points_of(u) == s.points_of(u)
        }),
{
    let (t, r) = s.unstake(user, amount, now);
    if r is Ok {
        let m = s.settle(user, now);
        lemma_settle_keeps_pending(s, user, now);
        lemma_unstake_keeps_total_nonnegative(s, user, amount);
        let new_info = StakeInfo { amount: (s.stakes[user].amount - amount) as i128, since: now };
        assert(m.stakes.dom().contains(user));
        assert(m.stakes[user].amount == s.stakes[user].amount);
        lemma_sum_insert(m.stakes, |i: StakeInfo| stake_amount(i), user, new_info);
        lemma_reward_at_start(new_info.amount, now);
    }
}

/// Claiming answers exactly the pending points at `now`, and leaves them,
/// every stake and the total as they were; it keeps the invariant.
pub proof fn lemma_claim_answers_pending(s: PoolState, user: u64, now: u64)
    requires
        s.accrual_fits(user, now),
    ensures
        ({
            let (t, pts) = s.claim(user, now);
            &&& pts == s.pending_points(user, now)
            &&& t.pending_points(user, now) == s.pending_points(user, now)
            &&& t.total_staked == s.total_staked
            &&& forall|u: u64| #[trigger] t.staked_of(u) == s.staked_of(u)
            &&& s.inv() ==> t.inv()
        }),
{
    lemma_settle_keeps_pending(s, user, now);
    let t = s.settle(user, now);
    if t.stakes.dom().contains(user) {
        lemma_reward_at_start(t.stakes[user].amount, now);
        if s.stakes[user].amount > 0 {
            assert(t.stakes[user].since == now);
        }
    }
}

/// Pending points never decrease as time passes.
pub proof fn lemma_pending_grows_with_time(s: PoolState, user: u64, now1: u64, now2: u64)
    requires
        now1 <= now2,
    ensures
        s.pending_points(user, now1) <= s.pending_points(user, now2),
{
    if s.stakes.dom().contains(user) {
        lemma_reward_grows_with_time(s.stakes[user].amount, s.stakes[user].since, now1, now2);
    }
}

/// Staking `amount` and unstaking the same `amount` at the same moment
/// gives back the same stake and total, and the same pending points.
pub proof fn lemma_stake_unstake_round_trip(s: PoolState, user: u64, amount: i128, now: u64)
    requires
        s.inv(),
        s.stake_fits(user, amount, now),
        s.stake(user, amount, now).1 is Ok,
        s.stake(user, amount, now).0.unstake_fits(user, amount, now),
    ensures
        ({
            let t = s.stake(user, amount, now).0;
            let (w, r) = t.unstake(user, amount, now);
            &&& r == Ok::<i128, Error>(s.staked_of(user))
            &&& w.staked_of(user) == s.staked_of(user)
            &&& w.total_staked == s.total_staked
            &&& w.pending_points(user, now) == s.pending_points(user, now)
            &&& w.inv()
        }),
{
    lemma_stake_laws(s, user, amount, now);
    let t = s.stake(user, amount, now).0;
    assert(t.stakes.dom().contains(user));
    lemma_unstake_laws(t, user, amount, now);
}

/// A pool is initialized at most once: after any `init`, another `init` is
/// refused with `AlreadyInitialized` and changes nothing. `init` keeps the
/// invariant.
pub proof fn lemma_init_once(s: PoolState, token: u64, token2: u64)
    requires
        s.inv(),
    ensures
        ({
            let (t, _r) = s.init(token);
            &&& t.inv()
            &&& t.token_of() is Ok
            &&& t.init(token2) == (t, Err::<(), Error>(Error::AlreadyInitialized))
        }),
{
}

/// A refused operation changes nothing.
pub proof fn lemma_refusal_changes_nothing(s: PoolState, token: u64, user: u64, amount: i128, now: u64)
    ensures
        s.init(token).1 is Err ==> s.init(token).0 == s,
        s.stake(user, amount, now).1 is Err ==> s.stake(user, amount, now).0 == s,
        s.unstake(user, amount, now).1 is Err ==> s.unstake(user, amount, now).0 == s,
{
}

/// A fresh pool satisfies the invariant.
pub proof fn lemma_fresh_pool()
    ensures
        PoolState::fresh().inv(),
{
    let m = Map::<u64, StakeInfo>::empty();
    assert(m.dom() =~= Set::empty());
}

} // verus!

verus! {

/// The pool's token balance covers everything staked: when `pool` holds at
/// least `total_staked` tokens, it still does after a stake or an unstake
/// by another account, whose tokens move through the token's `transfer`.
pub proof fn lemma_pool_balance_covers_stakes(
    tokens: TokenState,
    pool_state: PoolState,
    user: u64,
    pool: u64,
    amount: i128,
    now: u64,
)
    requires
        user != pool,
        pool_state.inv(),
        tokens.balance_of(pool) >= pool_state.total_staked,
    ensures
        pool_state.stake_fits(user, amount, now) && pool_state.stake(user, amount, now).1 is Ok
            && tokens.transfer_fits(user, pool, amount) && tokens.balance_of(user) >= amount ==> {
            let tokens2 = tokens.transfer(user, pool, amount).0;
            let pool2 = pool_state.stake(user, amount, now).0;
            tokens2.balance_of(pool) >= pool2.total_staked
        },
        pool_state.unstake_fits(user, amount, now) && pool_state.unstake(user, amount, now).1 is Ok
            && tokens.transfer_fits(pool, user, amount) ==> {
            let tokens2 = tokens.transfer(pool, user, amount).0;
            let pool2 = pool_state.unstake(user, amount, now).0;
            &&& tokens.balance_of(pool) >= amount
            &&& tokens2.balance_of(pool) >= pool2.total_staked
        },
{
    if pool_state.stake_fits(user, amount, now) && pool_state.stake(user, amount, now).1 is Ok {
        lemma_stake_laws(pool_state, user, amount, now);
    }
    if pool_state.unstake_fits(user, amount, now) && pool_state.unstake(user, amount, now).1 is Ok {
        lemma_unstake_laws(pool_state, user, amount, now);
        lemma_unstake_keeps_total_nonnegative(pool_state, user, amount);
    }
}

} // verus!

verus! {

/// One call that changes a pool's state, as a history records it.
pub enum PoolOp {
    Init { token: u64 },
    Stake { user: u64, amount: i128, now: u64 },
    Unstake { user: u64, amount: i128, now: u64 },
    Claim { user: u64, now: u64 },
}

impl PoolState {
    /// The pool's state after `op` (its token moves are the token's own).
    pub open spec fn apply(self, op: PoolOp) -> PoolState {
        match op {
            PoolOp::Init { token } => self.init(token).0,
            PoolOp::Stake { user, amount, now } => self.stake(user, amount, now).0,
            PoolOp::Unstake { user, amount, now } => self.unstake(user, amount, now).0,
            PoolOp::Claim { user, now } => self.claim(user, now).0,
        }
    }

    /// `op` stays within `i128`: the calls that overflow never complete.
    pub open spec fn op_fits(self, op: PoolOp) -> bool {
        match op {
            PoolOp::Init { .. } => true,
            PoolOp::Stake { user, amount, now } => self.stake_fits(user, amount, now),
            PoolOp::Unstake { user, amount, now } => self.unstake_fits(user, amount, now),
            PoolOp::Claim { user, now } => self.accrual_fits(user, now),
        }
    }
}

/// The pool's state after the calls `ops`, in order, starting from `s`.
pub open spec fn run_pool(s: PoolState, ops: Seq<PoolOp>) -> PoolState
    decreases ops.len(),
{
    if ops.len() == 0 {
        s
    } else {
        run_pool(s, ops.drop_last()).apply(ops.last())
    }
}

/// Every call of `ops`, starting from `s`, completes (none overflows).
pub open spec fn all_fit(s: PoolState, ops: Seq<PoolOp>) -> bool {
    forall|i: int| 0 <= i < ops.len() ==> #[trigger] run_pool(s, ops.take(i)).op_fits(ops[i])
}

/// No call lowers anyone's settled points.
pub proof fn lemma_op_keeps_points(s: PoolState, op: PoolOp, u: u64)
    requires
        s.op_fits(op),
    ensures
        s.apply(op).points_of(u) >= s.points_of(u),
{
    match op {
        PoolOp::Init { .. } => {},
        PoolOp::Stake { user, amount, now } => {
            if amount > 0 && s.token is Some {
                lemma_settle_keeps_pending(s, user, now);
            }
        },
        PoolOp::Unstake { user, amount, now } => {
            if s.unstake(user, amount, now).1 is Ok {
                lemma_settle_keeps_pending(s, user, now);
            }
        },
        PoolOp::Claim { user, now } => {
            lemma_settle_keeps_pending(s, user, now);
        },
    }
}

/// A user's settled points never decrease over any history of calls that
/// complete, by any users and at any times.
pub proof fn lemma_points_never_decrease(s: PoolState, ops: Seq<PoolOp>, u: u64)
    requires
        all_fit(s, ops),
    ensures
        run_pool(s, ops).points_of(u) >= s.points_of(u),
    decreases ops.len(),
{
    if ops.len() > 0 {
        let n = ops.len() - 1;
        let prefix = ops.drop_last();
        assert forall|i: int| 0 <= i < prefix.len() implies #[trigger] run_pool(
            s,
            prefix.take(i),
        ).op_fits(prefix[i]) by {
            assert(prefix.take(i) == ops.take(i));
            assert(run_pool(s, ops.take(i)).op_fits(ops[i]));
        }
        lemma_points_never_decrease(s, prefix, u);
        assert(ops.take(n) == prefix);
        assert(run_pool(s, ops.take(n)).op_fits(ops[n]));
        lemma_op_keeps_points(run_pool(s, prefix), ops.last(), u);
    }
}

/// What a claim answers never decreases: after a claim at `t1` answered
/// `p1`, any history of calls that complete, then a claim at `t2` answers
/// at least `p1`.
pub proof fn lemma_claims_never_decrease(s: PoolState, user: u64, t1: u64, ops: Seq<PoolOp>, t2: u64)
    requires
        s.accrual_fits(user, t1),
        all_fit(s.claim(user, t1).0, ops),
        run_pool(s.claim(user, t1).0, ops).accrual_fits(user, t2),
    ensures
        run_pool(s.claim(user, t1).0, ops).claim(user, t2).1 >= s.claim(user, t1).1,
{
    let after = s.claim(user, t1).0;
    lemma_points_never_decrease(after, ops, user);
    let last = run_pool(after, ops);
    lemma_settle_keeps_pending(last, user, t2);
}

} // verus!

verus! {

/// The documented reward formula, over all inputs: for a positive amount
/// and `now` not before `since`, the reward is
/// `amount * (now - since) * 100 / 1_000_000_000` rounded down; no time, or
/// no positive amount, earns nothing.
pub proof fn lemma_reward_is_formula(amount: i128, since: u64, now: u64)
    ensures
        amount > 0 && since <= now ==> reward(amount, since, now) * 1_000_000_000 <= amount * (now
            - since) * 100 < (reward(amount, since, now) + 1) * 1_000_000_000,
        amount > 0 && since <= now ==> reward(amount, since, now) >= 0,
        now <= since ==> reward(amount, since, now) == 0,
        amount <= 0 ==> reward(amount, since, now) == 0,
{
    if amount > 0 {
        let p = amount * elapsed(since, now) * REWARD_RATE;
        let r = p / (SCALE as int);
        assert(r * 1_000_000_000 <= p < (r + 1) * 1_000_000_000) by (nonlinear_arith)
            requires
                r == p / 1_000_000_000int,
        ;
        lemma_reward_nonnegative(amount, since, now);
        if now <= since {
            assert(elapsed(since, now) == 0);
            assert(p == 0);
        }
    }
}

/// Pending points, over all inputs: the settled points plus the documented
/// formula applied to the stake over the time since it was last settled.
pub proof fn lemma_pending_is_formula(s: PoolState, user: u64, now: u64)
    ensures
        !s.stakes.dom().contains(user) ==> s.pending_points(user, now) == s.points_of(user),
        s.stakes.dom().contains(user) ==> {
            let info = s.stakes[user];
            let earned = s.pending_points(user, now) - s.points_of(user);
            &&& info.amount > 0 && info.since <= now ==> earned * 1_000_000_000 <= info.amount * (
            now - info.since) * 100 < (earned + 1) * 1_000_000_000
            &&& info.amount <= 0 || now <= info.since ==> earned == 0
        },
{
    if s.stakes.dom().contains(user) {
        lemma_reward_is_formula(s.stakes[user].amount, s.stakes[user].since, now);
    }
}

/// What pool `init` answers, from its inputs alone: it succeeds exactly on
/// a pool without a token, and then records that token with a zero total.
pub proof fn lemma_pool_init_outcome(s: PoolState, token: u64)
    ensures
        ({
            let (t, r) = s.init(token);
            &&& (r is Ok) == (s.token is None)
            &&& r is Err ==> r == Err::<(), Error>(Error::AlreadyInitialized)
            &&& r is Ok ==> t.token == Some(token) && t.total_staked == 0 && t.token_of() == Ok::<
                u64,
                Error,
            >(token)
        }),
{
}

/// What `stake` answers, from its inputs alone: a non-positive amount is
/// refused, then an uninitialized pool; every other stake succeeds,
/// whatever the user's current stake, answering the previous stake plus
/// `amount`, which becomes the user's stake; the total grows by `amount`,
/// and the user's earned rewards become settled points.
pub proof fn lemma_stake_outcome(s: PoolState, user: u64, amount: i128, now: u64)
    requires
        s.stake_fits(user, amount, now),
    ensures
        ({
            let (t, r) = s.stake(user, amount, now);
            &&& amount <= 0 ==> r == Err::<i128, Error>(Error::NegativeAmount)
            &&& amount > 0 && s.token is None ==> r == Err::<i128, Error>(Error::NotInitialized)
            &&& amount > 0 && s.token is Some ==> {
                &&& r == Ok::<i128, Error>((s.staked_of(user) + amount) as i128)
                &&& t.staked_of(user) == s.staked_of(user) + amount
                &&& t.total_staked == s.total_staked + amount
                &&& t.points_of(user) == s.pending_points(user, now)
                &&& t.pending_points(user, now) == s.pending_points(user, now)
            }
        }),
{
    if amount > 0 && s.token is Some {
        lemma_settle_keeps_pending(s, user, now);
        let m = s.settle(user, now);
        let t = s.stake(user, amount, now).0;
        assert(t.stakes[user].since == now);
        if s.stakes.dom().contains(user) && s.stakes[user].amount > 0 {
            assert(m.points_of(user) == s.pending_points(user, now));
        } else {
            assert(s.unsettled(user, now) == 0);
        }
    }
}

/// What `unstake` answers, from its inputs alone: a non-positive amount is
/// refused, then an uninitialized pool, then a user without a stake, then
/// an amount above the stake; every other unstake succeeds, at any time,
/// answering the stake less `amount`, which becomes the user's stake; the
/// total shrinks by `amount`, and the user's earned rewards become settled
/// points.
pub proof fn lemma_unstake_outcome(s: PoolState, user: u64, amount: i128, now: u64)
    requires
        s.unstake_fits(user, amount, now),
    ensures
        ({
            let (t, r) = s.unstake(user, amount, now);
            &&& amount <= 0 ==> r == Err::<i128, Error>(Error::NegativeAmount)
            &&& amount > 0 && s.token is None ==> r == Err::<i128, Error>(Error::NotInitialized)
            &&& amount > 0 && s.token is Some && !s.stakes.dom().contains(user) ==> r == Err::<
                i128,
                Error,
            >(Error::NothingStaked)
            &&& amount > 0 && s.token is Some && s.stakes.dom().contains(user)
                && s.stakes[user].amount < amount ==> r == Err::<i128, Error>(
                Error::InsufficientStake,
            )
            &&& amount > 0 && s.token is Some && s.stakes.dom().contains(user)
                && s.stakes[user].amount >= amount ==> {
                &&& r == Ok::<i128, Error>((s.stakes[user].amount - amount) as i128)
                &&& t.staked_of(user) == s.staked_of(user) - amount
                &&& t.total_staked == s.total_staked - amount
                &&& t.points_of(user) == s.pending_points(user, now)
                &&& t.pending_points(user, now) == s.pending_points(user, now)
            }
        }),
{
    if amount > 0 && s.token is Some && s.stakes.dom().contains(user) && s.stakes[user].amount
        >= amount {
        lemma_settle_keeps_pending(s, user, now);
        let m = s.settle(user, now);
        let t = s.unstake(user, amount, now).0;
        assert(t.stakes[user].since == now);
        if s.stakes[user].amount > 0 {
            assert(m.points_of(user) == s.pending_points(user, now));
        }
    }
}

} // verus!
