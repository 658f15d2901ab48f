# staking_pool

A fungible token and a staking pool that locks it and accrues reward points
linearly over time (`points = amount * seconds * 100 / 1e9`), verified with
Verus.

- `src/token.rs`: balances, transfer, admin mint, a once-per-address faucet
  and metadata; the abstract state `TokenState`, its transitions, and the
  laws (supply conservation, transfers changing nothing but balances, non-negative balances, init and faucet at most
  once, refusals change nothing, and over any history of calls an id has
  claimed from the faucet exactly when a faucet call for it succeeded).
- `src/staking.rs`: stake, unstake, settle, claim and the views; the
  abstract state `PoolState`, its transitions, and the laws (the total is
  the sum of all stakes, rewards are never lost by restaking or claiming,
  pending points grow with time, stake and unstake round-trip, the pool's
  token balance covers the stakes against stakes by any account other than
  the pool itself, and over any history of calls a user's
  points, and what a claim answers, never decrease).
- `src/ledger_sum.rs`: sums over finite maps and the maps built from stored
  entries.
- `app/`: the Soroban contracts that load storage entries, let the library
  decide, check authorization, write the entries back and publish events.
