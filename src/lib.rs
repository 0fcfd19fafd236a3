//! Replays a ledger of deposits, withdrawals, disputes, resolutions and
//! chargebacks into per-client account balances.
pub mod amount;
pub mod error;
pub mod ledger;
pub mod transaction;
