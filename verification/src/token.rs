//! A minimal SEP-41-style fungible token: balances, transfer, admin mint,
//! a once-per-address faucet, and decimals / name / symbol metadata.
//!
//! Accounts are identified by `u64` ids. Authorization (`require_auth`),
//! storage and event publication belong to the host that runs the
//! contract; this module holds the rules that decide every answer.

use std::collections::HashMap;
use std::collections::HashSet;
use vstd::prelude::*;

use crate::ledger_sum::{lemma_sum_insert, map_of_pairs, set_of, sum_values};

verus! {

/// What one claim from the faucet credits: 1,000 tokens with 7 decimals.
pub const FAUCET_AMOUNT: i128 = 10_000_000_000;

/// The decimals reported before the token is initialized.
pub const DEFAULT_DECIMALS: u32 = 7;

/// Why a token operation was refused.
#[derive(Copy, Clone, Debug, PartialEq, Eq, Structural)]
pub enum Error {
    NotInitialized,
    AlreadyInitialized,
    NotAdmin,
    InsufficientBalance,
    NegativeAmount,
    AlreadyClaimed,
}

/// The abstract state of a token contract.
pub struct TokenState {
    /// The token contract's own id.
    pub address: u64,
    pub admin: Option<u64>,
    pub decimals: u32,
    pub name: Seq<char>,
    pub symbol: Seq<char>,
    /// Stored balances; an id without an entry holds 0.
    pub balances: Map<u64, i128>,
    /// Ids that have claimed from the faucet.
    pub claims: Set<u64>,
}

/// The balance that `m` records for `id`, 0 where it records none.
pub open spec fn balance_in(m: Map<u64, i128>, id: u64) -> i128 {
    if m.dom().contains(id) {
        m[id]
    } else {
        0
    }
}

/// The amount as a mathematical integer.
pub open spec fn amount_of(b: i128) -> int {
    b as int
}

impl TokenState {
    /// A freshly deployed, uninitialized token at `address`.
    pub open spec fn fresh(address: u64) -> TokenState {
        TokenState {
            address,
            admin: None,
            decimals: DEFAULT_DECIMALS,
            name: Seq::empty(),
            symbol: Seq::empty(),
            balances: Map::empty(),
            claims: Set::empty(),
        }
    }

    pub open spec fn balance_of(self, id: u64) -> i128 {
        balance_in(self.balances, id)
    }

    /// The sum of all balances.
    pub open spec fn total_supply(self) -> int {
        sum_values(self.balances, |b: i128| amount_of(b))
    }

    /// Reachable token states: finitely many balances, none negative.
    pub open spec fn inv(self) -> bool {
        &&& self.balances.dom().finite()
        &&& forall|id: u64| self.balances.dom().contains(id) ==> #[trigger] self.balances[id] >= 0
    }

    /// `init`: set the admin and metadata, once.
    pub open spec fn init(self, admin: u64, decimal: u32, name: Seq<char>, symbol: Seq<char>) -> (
        TokenState,
        Result<(), Error>,
    ) {
        if self.admin is Some {
            (self, Err(Error::AlreadyInitialized))
        } else {
            (
                TokenState { admin: Some(admin), decimals: decimal, name, symbol, ..self },
                Ok(()),
            )
        }
    }

    /// `mint` stays within `i128`.
    pub open spec fn mint_fits(self, to: u64, amount: i128) -> bool {
        amount >= 0 && self.admin is Some ==> self.balance_of(to) + amount <= i128::MAX
    }

    /// `mint`: the admin credits `amount` to `to`.
    pub open spec fn mint(self, to: u64, amount: i128) -> (TokenState, Result<(), Error>) {
        if amount < 0 {
            (self, Err(Error::NegativeAmount))
        } else if self.admin is None {
            (self, Err(Error::NotInitialized))
        } else {
            (
                TokenState {
                    balances: self.balances.insert(to, (self.balance_of(to) + amount) as i128),
                    ..self
                },
                Ok(()),
            )
        }
    }

    /// `transfer` stays within `i128`.
    pub open spec fn transfer_fits(self, from: u64, to: u64, amount: i128) -> bool {
        amount >= 0 && self.balance_of(from) >= amount && from != to ==> self.balance_of(to)
            + amount <= i128::MAX
    }

    /// `transfer`: move `amount` from `from` to `to`.
    pub open spec fn transfer(self, from: u64, to: u64, amount: i128) -> (
        TokenState,
        Result<(), Error>,
    ) {
        if amount < 0 {
            (self, Err(Error::NegativeAmount))
        } else if self.balance_of(from) < amount {
            (self, Err(Error::InsufficientBalance))
        } else {
            let debited = self.balances.insert(from, (self.balance_of(from) - amount) as i128);
            (
                TokenState {
                    balances: debited.insert(to, (balance_in(debited, to) + amount) as i128),
                    ..self
                },
                Ok(()),
            )
        }
    }

    /// `faucet` stays within `i128`.
    pub open spec fn faucet_fits(self, to: u64) -> bool {
        !self.claims.contains(to) ==> self.balance_of(to) + FAUCET_AMOUNT <= i128::MAX
    }

    /// `faucet`: credit `FAUCET_AMOUNT` to `to`, once per id.
    pub open spec fn faucet(self, to: u64) -> (TokenState, Result<i128, Error>) {
        if self.claims.contains(to) {
            (self, Err(Error::AlreadyClaimed))
        } else {
            (
                TokenState {
                    claims: self.claims.insert(to),
                    balances: self.balances.insert(
                        to,
                        (self.balance_of(to) + FAUCET_AMOUNT) as i128,
                    ),
                    ..self
                },
                Ok(FAUCET_AMOUNT),
            )
        }
    }
}

/// A token contract's state.
pub struct TokenContract {
    address: u64,
    admin: Option<u64>,
    decimals: u32,
    name: String,
    symbol: String,
    balances: HashMap<u64, i128>,
    faucet_claims: HashSet<u64>,
}

impl View for TokenContract {
    type V = TokenState;

    closed spec fn view(&self) -> TokenState {
        TokenState {
            address: self.address,
            admin: self.admin,
            decimals: self.decimals,
            name: self.name@,
            symbol: self.symbol@,
            balances: self.balances@,
            claims: self.faucet_claims@,
        }
    }
}

impl TokenContract {
    /// A token freshly deployed at `address`: not initialized, no balances.
    pub fn new(address: u64) -> (c: TokenContract)
        ensures
            c@ == TokenState::fresh(address),
    {
        TokenContract {
            address,
            admin: None,
            decimals: DEFAULT_DECIMALS,
            name: String::new(),
            symbol: String::new(),
            balances: HashMap::new(),
            faucet_claims: HashSet::new(),
        }
    }

    /// A token whose stored entries are the given ones: the state that a
    /// host reloads before an operation. A later pair for the same id wins.
    pub fn from_stored(
        address: u64,
        admin: Option<u64>,
        decimals: u32,
        name: String,
        symbol: String,
        balances: Vec<(u64, i128)>,
        claims: Vec<u64>,
    ) -> (c: TokenContract)
        ensures
            c@ == (TokenState {
                address,
                admin,
                decimals,
                name: name@,
                symbol: symbol@,
                balances: map_of_pairs(balances@),
                claims: set_of(claims@),
            }),
    {
        let mut balance_map: HashMap<u64, i128> = HashMap::new();
        for i in 0..balances.len()
            invariant
                balance_map@ == map_of_pairs(balances@.take(i as int)),
        {
            assert(balances@.take(i + 1).drop_last() == balances@.take(i as int));
            let (id, b) = balances[i];
            balance_map.insert(id, b);
        }
        assert(balances@.take(balances.len() as int) == balances@);
        let mut claim_set: HashSet<u64> = HashSet::new();
        for i in 0..claims.len()
            invariant
                claim_set@ == set_of(claims@.take(i as int)),
        {
            assert(claims@.take(i + 1).drop_last() == claims@.take(i as int));
            claim_set.insert(claims[i]);
        }
        assert(claims@.take(claims.len() as int) == claims@);
        TokenContract {
            address,
            admin,
            decimals,
            name,
            symbol,
            balances: balance_map,
            faucet_claims: claim_set,
        }
    }

    /// The balance stored for `id`, if one is.
    pub fn balance_entry(&self, id: u64) -> (b: Option<i128>)
        ensures
            b == (if self@.balances.dom().contains(id) {
                Some(self@.balances[id])
            } else {
                None
            }),
    {
        match self.balances.get(&id) {
            Some(b) => Some(*b),
            None => None,
        }
    }

    /// Sets the admin, decimals, name and symbol; refused once an admin is set.
    pub fn init(&mut self, admin: u64, decimal: u32, name: String, symbol: String) -> (r: Result<
        (),
        Error,
    >)
        ensures
            (final(self)@, r) == old(self)@.init(admin, decimal, name@, symbol@),
    {
        if self.admin.is_some() {
            return Err(Error::AlreadyInitialized);
        }
        self.admin = Some(admin);
        self.decimals = decimal;
        self.name = name;
        self.symbol = symbol;
        Ok(())
    }

    /// Credits `amount` to `to`. The host checks the admin's authorization.
    pub fn mint(&mut self, to: u64, amount: i128) -> (r: Result<(), Error>)
        requires
            old(self)@.mint_fits(to, amount),
        ensures
            (final(self)@, r) == old(self)@.mint(to, amount),
    {
        if amount < 0 {
            return Err(Error::NegativeAmount);
        }
        if self.admin.is_none() {
            return Err(Error::NotInitialized);
        }
        let cur = self.balance(to);
        self.balances.insert(to, cur + amount);
        Ok(())
    }

    /// Moves `amount` from `from` to `to`. The host checks `from`'s authorization.
    pub fn transfer(&mut self, from: u64, to: u64, amount: i128) -> (r: Result<(), Error>)
        requires
            old(self)@.transfer_fits(from, to, amount),
        ensures
            (final(self)@, r) == old(self)@.transfer(from, to, amount),
    {
        if amount < 0 {
            return Err(Error::NegativeAmount);
        }
        let from_bal = self.balance(from);
        if from_bal < amount {
            return Err(Error::InsufficientBalance);
        }
        self.balances.insert(from, from_bal - amount);
        let to_bal = self.balance(to);
        self.balances.insert(to, to_bal + amount);
        Ok(())
    }

    /// Whether `mint(to, amount)` stays within `i128`.
    pub fn mint_fits(&self, to: u64, amount: i128) -> (b: bool)
        ensures
            b == self@.mint_fits(to, amount),
    {
        if amount < 0 || self.admin.is_none() {
            return true;
        }
        self.balance(to).checked_add(amount).is_some()
    }

    /// Whether `transfer(from, to, amount)` stays within `i128`.
    pub fn transfer_fits(&self, from: u64, to: u64, amount: i128) -> (b: bool)
        ensures
            b == self@.transfer_fits(from, to, amount),
    {
        if amount < 0 || self.balance(from) < amount || from == to {
            return true;
        }
        self.balance(to).checked_add(amount).is_some()
    }

    /// Whether `faucet(to)` stays within `i128`.
    pub fn faucet_fits(&self, to: u64) -> (b: bool)
        ensures
            b == self@.faucet_fits(to),
    {
        if self.faucet_claims.contains(&to) {
            return true;
        }
        self.balance(to).checked_add(FAUCET_AMOUNT).is_some()
    }

    /// The balance of `id`, 0 where it has none.
    pub fn balance(&self, id: u64) -> (b: i128)
        ensures
            b == self@.balance_of(id),
    {
        match self.balances.get(&id) {
            Some(b) => *b,
            None => 0,
        }
    }

    /// Credits `FAUCET_AMOUNT` to `to`, once per id. The host checks `to`'s authorization.
    pub fn faucet(&mut self, to: u64) -> (r: Result<i128, Error>)
        requires
            old(self)@.faucet_fits(to),
        ensures
            (final(self)@, r) == old(self)@.faucet(to),
    {
        if self.faucet_claims.contains(&to) {
            return Err(Error::AlreadyClaimed);
        }
        self.faucet_claims.insert(to);
        let cur = self.balance(to);
        let new_bal = cur + FAUCET_AMOUNT;
        self.balances.insert(to, new_bal);
        Ok(FAUCET_AMOUNT)
    }

    /// The token contract's own id.
    pub fn address(&self) -> (a: u64)
        ensures
            a == self@.address,
    {
        self.address
    }

    /// Whether `addr` has already claimed from the faucet.
    pub fn faucet_claimed(&self, addr: u64) -> (b: bool)
        ensures
            b == self@.claims.contains(addr),
    {
        self.faucet_claims.contains(&addr)
    }

    /// The decimals set at `init`, `DEFAULT_DECIMALS` before it.
    pub fn decimals(&self) -> (d: u32)
        ensures
            d == self@.decimals,
    {
        self.decimals
    }

    /// The name set at `init`, empty before it.
    pub fn name(&self) -> (s: String)
        ensures
            s@ == self@.name,
    {
        self.name.clone()
    }

    /// The symbol set at `init`, empty before it.
    pub fn symbol(&self) -> (s: String)
        ensures
            s@ == self@.symbol,
    {
        self.symbol.clone()
    }
}

} // verus!

verus! {

/// A transfer keeps the total supply, debits `from` and credits `to` by
/// exactly `amount` (nothing net when they are the same id), leaves every
/// other balance as it was, and keeps balances non-negative.
pub proof fn lemma_transfer_moves_amount(s: TokenState, from: u64, to: u64, amount: i128)
    requires
        s.inv(),
        s.transfer_fits(from, to, amount),
    ensures
        ({
            let (t, r) = s.transfer(from, to, amount);
            &&& t.inv()
            &&& t.total_supply() == s.total_supply()
            &&& r is Ok ==> {
                &&& from != to ==> t.balance_of(from) == s.balance_of(from) - amount
                &&& from != to ==> t.balance_of(to) == s.balance_of(to) + amount
                &&& from == to ==> t.balance_of(from) == s.balance_of(from)
            }
            &&& forall|id: u64| id != from && id != to ==> t.balance_of(id) == s.balance_of(id)
        }),
{
    let (t, r) = s.transfer(from, to, amount);
    if r is Ok {
        let f = |b: i128| amount_of(b);
        let debited = s.balances.insert(from, (s.balance_of(from) - amount) as i128);
        lemma_sum_insert(s.balances, f, from, (s.balance_of(from) - amount) as i128);
        lemma_sum_insert(debited, f, to, (balance_in(debited, to) + amount) as i128);
    }
}

/// Minting `amount` grows the total supply by exactly `amount`, credits it
/// to `to` alone, and keeps balances non-negative.
pub proof fn lemma_mint_grows_supply(s: TokenState, to: u64, amount: i128)
    requires
        s.inv(),
        s.mint_fits(to, amount),
    ensures
        ({
            let (t, r) = s.mint(to, amount);
            &&& t.inv()
            &&& r is Ok ==> t.total_supply() == s.total_supply() + amount
            &&& r is Ok ==> t.balance_of(to) == s.balance_of(to) + amount
            &&& r is Err ==> t.total_supply() == s.total_supply()
            &&& forall|id: u64| id != to ==> t.balance_of(id) == s.balance_of(id)
        }),
{
    let (t, r) = s.mint(to, amount);
    if r is Ok {
        lemma_sum_insert(
            s.balances,
            |b: i128| amount_of(b),
            to,
            (s.balance_of(to) + amount) as i128,
        );
    }
}

/// A faucet claim credits `FAUCET_AMOUNT` to the claimant alone, grows the
/// supply by as much, keeps balances non-negative, and a second claim by
/// the same id is refused with `AlreadyClaimed`.
pub proof fn lemma_faucet_once(s: TokenState, to: u64)
    requires
        s.inv(),
        s.faucet_fits(to),
    ensures
        ({
            let (t, r) = s.faucet(to);
            &&& t.inv()
            &&& r is Ok ==> t.total_supply() == s.total_supply() + FAUCET_AMOUNT
            &&& r is Ok ==> t.balance_of(to) == s.balance_of(to) + FAUCET_AMOUNT
            &&& forall|id: u64| id != to ==> t.balance_of(id) == s.balance_of(id)
            &&& t.faucet(to) == (t, Err::<i128, Error>(Error::AlreadyClaimed))
        }),
{
    let (t, r) = s.faucet(to);
    if r is Ok {
        lemma_sum_insert(
            s.balances,
            |b: i128| amount_of(b),
            to,
            (s.balance_of(to) + FAUCET_AMOUNT) as i128,
        );
    }
}

/// A token is initialized at most once: after any `init`, another `init`
/// is refused with `AlreadyInitialized` and changes nothing. `init` keeps
/// the balances as they were.
pub proof fn lemma_init_once(
    s: TokenState,
    admin: u64,
    decimal: u32,
    name: Seq<char>,
    symbol: Seq<char>,
    admin2: u64,
    decimal2: u32,
    name2: Seq<char>,
    symbol2: Seq<char>,
)
    requires
        s.inv(),
    ensures
        ({
            let (t, _r) = s.init(admin, decimal, name, symbol);
            &&& t.inv()
            &&& t.balances == s.balances
            &&& t.init(admin2, decimal2, name2, symbol2) == (t, Err::<(), Error>(
                Error::AlreadyInitialized,
            ))
        }),
{
}

/// A refused operation changes nothing.
pub proof fn lemma_refusal_changes_nothing(
    s: TokenState,
    admin: u64,
    decimal: u32,
    name: Seq<char>,
    symbol: Seq<char>,
    from: u64,
    to: u64,
    amount: i128,
)
    ensures
        s.init(admin, decimal, name, symbol).1 is Err ==> s.init(admin, decimal, name, symbol).0
            == s,
        s.mint(to, amount).1 is Err ==> s.mint(to, amount).0 == s,
        s.transfer(from, to, amount).1 is Err ==> s.transfer(from, to, amount).0 == s,
        s.faucet(to).1 is Err ==> s.faucet(to).0 == s,
{
}

/// A fresh token satisfies the invariant and has no supply: no admin,
/// 7 decimals, empty name and symbol, no balances and no faucet claims.
pub proof fn lemma_fresh_token(address: u64)
    ensures
        TokenState::fresh(address).inv(),
        TokenState::fresh(address).total_supply() == 0,
        TokenState::fresh(address).address == address,
        TokenState::fresh(address).admin is None,
        TokenState::fresh(address).decimals == 7,
        TokenState::fresh(address).name.len() == 0,
        TokenState::fresh(address).symbol.len() == 0,
        forall|id: u64| TokenState::fresh(address).balance_of(id) == 0,
        forall|id: u64| !TokenState::fresh(address).claims.contains(id),
{
    let m = Map::<u64, i128>::empty();
    assert(m.dom() =~= Set::empty());
}

} // verus!

verus! {

/// One call that changes a token's state, as a history records it.
pub enum TokenOp {
    Init { admin: u64, decimal: u32, name: Seq<char>, symbol: Seq<char> },
    Mint { to: u64, amount: i128 },
    Transfer { from: u64, to: u64, amount: i128 },
    Faucet { to: u64 },
}

impl TokenState {
    /// The state after `op`, and whether `op` succeeded.
    pub open spec fn apply(self, op: TokenOp) -> (TokenState, bool) {
        match op {
            TokenOp::Init { admin, decimal, name, symbol } => {
                let (t, r) = self.init(admin, decimal, name, symbol);
                (t, r is Ok)
            },
            TokenOp::Mint { to, amount } => {
                let (t, r) = self.mint(to, amount);
                (t, r is Ok)
            },
            TokenOp::Transfer { from, to, amount } => {
                let (t, r) = self.transfer(from, to, amount);
                (t, r is Ok)
            },
            TokenOp::Faucet { to } => {
                let (t, r) = self.faucet(to);
                (t, r is Ok)
            },
        }
    }
}

/// The state after the calls `ops`, in order, starting from `s`.
pub open spec fn run_token(s: TokenState, ops: Seq<TokenOp>) -> TokenState
    decreases ops.len(),
{
    if ops.len() == 0 {
        s
    } else {
        run_token(s, ops.drop_last()).apply(ops.last()).0
    }
}

/// Call `i` of `ops`, starting from `s`, was a faucet claim for `addr`
/// that succeeded.
pub open spec fn faucet_succeeded_at(s: TokenState, ops: Seq<TokenOp>, i: int, addr: u64) -> bool {
    &&& 0 <= i < ops.len()
    &&& ops[i] == (TokenOp::Faucet { to: addr })
    &&& run_token(s, ops.take(i)).apply(ops[i]).1
}

/// Only a successful faucet claim records a claim: `init`, `mint` and
/// `transfer` keep the claim set, and a faucet call adds its id exactly
/// when it succeeds.
pub proof fn lemma_only_faucet_records_claims(s: TokenState, op: TokenOp)
    ensures
        ({
            let (t, ok) = s.apply(op);
            match op {
                TokenOp::Faucet { to } => t.claims == (if ok {
                    s.claims.insert(to)
                } else {
                    s.claims
                }) && (ok <==> !s.claims.contains(to)),
                _ => t.claims == s.claims,
            }
        }),
{
}

/// Whatever calls come in between, an id has claimed from the faucet
/// exactly when it had already, or some faucet call for it in the history
/// succeeded.
pub proof fn lemma_claims_record_successful_faucets(s: TokenState, ops: Seq<TokenOp>, addr: u64)
    ensures
        run_token(s, ops).claims.contains(addr) <==> (s.claims.contains(addr) || exists|i: int|
            #[trigger] faucet_succeeded_at(s, ops, i, addr)),
    decreases ops.len(),
{
    if ops.len() > 0 {
        let n = ops.len() - 1;
        let prefix = ops.drop_last();
        lemma_claims_record_successful_faucets(s, prefix, addr);
        assert(ops.take(n) == prefix);
        let before = run_token(s, prefix);
        lemma_only_faucet_records_claims(before, ops.last());
        assert forall|i: int| 0 <= i < n implies #[trigger] faucet_succeeded_at(s, ops, i, addr)
            == faucet_succeeded_at(s, prefix, i, addr) by {
            assert(ops.take(i) == prefix.take(i));
        }
        if run_token(s, ops).claims.contains(addr) && !s.claims.contains(addr) {
            if before.claims.contains(addr) {
                let i = choose|i: int| #[trigger] faucet_succeeded_at(s, prefix, i, addr);
                assert(faucet_succeeded_at(s, ops, i, addr));
            } else {
                assert(faucet_succeeded_at(s, ops, n, addr));
            }
        }
        if exists|i: int| #[trigger] faucet_succeeded_at(s, ops, i, addr) {
            let i = choose|i: int| #[trigger] faucet_succeeded_at(s, ops, i, addr);
            if i < n {
                assert(faucet_succeeded_at(s, prefix, i, addr));
            }
        }
    }
}

/// On a freshly deployed token, `faucet_claimed(addr)` is true after a
/// history of calls exactly when some faucet call for `addr` in it
/// succeeded.
pub proof fn lemma_faucet_claimed_means_claimed(address: u64, ops: Seq<TokenOp>, addr: u64)
    ensures
        run_token(TokenState::fresh(address), ops).claims.contains(addr) <==> exists|i: int|
            #[trigger] faucet_succeeded_at(TokenState::fresh(address), ops, i, addr),
{
    lemma_claims_record_successful_faucets(TokenState::fresh(address), ops, addr);
}

} // verus!

verus! {

/// What `init` answers, from its inputs alone: it succeeds exactly on a
/// token without an admin, and then records exactly the given admin,
/// decimals, name and symbol, keeping balances and claims.
pub proof fn lemma_init_outcome(
    s: TokenState,
    admin: u64,
    decimal: u32,
    name: Seq<char>,
    symbol: Seq<char>,
)
    ensures
        ({
            let (t, r) = s.init(admin, decimal, name, symbol);
            &&& (r is Ok) == (s.admin is None)
            &&& r is Err ==> r == Err::<(), Error>(Error::AlreadyInitialized)
            &&& r is Ok ==> {
                &&& t.admin == Some(admin)
                &&& t.decimals == decimal
                &&& t.name == name
                &&& t.symbol == symbol
                &&& t.balances == s.balances
                &&& t.claims == s.claims
                &&& t.address == s.address
            }
        }),
{
}

/// What `mint` answers, from its inputs alone: a negative amount is
/// refused, then an uninitialized token; every other mint succeeds, to any
/// recipient (the admin included), and adds exactly `amount` to the
/// recipient's balance alone.
pub proof fn lemma_mint_outcome(s: TokenState, to: u64, amount: i128)
    requires
        s.mint_fits(to, amount),
    ensures
        ({
            let (t, r) = s.mint(to, amount);
            &&& amount < 0 ==> r == Err::<(), Error>(Error::NegativeAmount)
            &&& amount >= 0 && s.admin is None ==> r == Err::<(), Error>(Error::NotInitialized)
            &&& amount >= 0 && s.admin is Some ==> {
                &&& r == Ok::<(), Error>(())
                &&& t.balance_of(to) == s.balance_of(to) + amount
                &&& forall|id: u64| id != to ==> t.balance_of(id) == s.balance_of(id)
                &&& t.admin == s.admin
                &&& t.claims == s.claims
            }
        }),
{
}

/// What `transfer` answers, from its inputs alone: a negative amount is
/// refused, then an amount above the sender's balance; every other transfer
/// succeeds.
pub proof fn lemma_transfer_outcome(s: TokenState, from: u64, to: u64, amount: i128)
    ensures
        ({
            let (t, r) = s.transfer(from, to, amount);
            &&& amount < 0 ==> r == Err::<(), Error>(Error::NegativeAmount)
            &&& amount >= 0 && s.balance_of(from) < amount ==> r == Err::<(), Error>(
                Error::InsufficientBalance,
            )
            &&& amount >= 0 && s.balance_of(from) >= amount ==> r == Ok::<(), Error>(())
            &&& t.admin == s.admin
            &&& t.claims == s.claims
        }),
{
}

/// What `faucet` answers, from its inputs alone: an id that has claimed is
/// refused; any other claim succeeds, answers exactly the amount credited,
/// 10,000,000,000 units, adds exactly that to the claimant's balance alone
/// and records the claim.
pub proof fn lemma_faucet_outcome(s: TokenState, to: u64)
    requires
        s.faucet_fits(to),
    ensures
        ({
            let (t, r) = s.faucet(to);
            &&& s.claims.contains(to) ==> r == Err::<i128, Error>(Error::AlreadyClaimed)
            &&& !s.claims.contains(to) ==> {
                &&& r == Ok::<i128, Error>(10_000_000_000)
                &&& t.balance_of(to) == s.balance_of(to) + 10_000_000_000
                &&& forall|id: u64| id != to ==> t.balance_of(id) == s.balance_of(id)
                &&& t.claims.contains(to)
            }
            &&& r matches Ok(credited) ==> t.balance_of(to) == s.balance_of(to) + credited
        }),
{
}

} // verus!
