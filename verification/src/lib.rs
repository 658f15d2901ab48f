//! A fungible token ledger and a staking pool that locks that token and
//! accrues reward points linearly over time, with their bookkeeping laws
//! proved.

pub mod ledger_sum;
pub mod token;
pub mod staking;
