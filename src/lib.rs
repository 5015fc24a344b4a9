//! A minimal multi-asset ledger: named fungible tokens, per-holder balances
//! and an append-only transaction history for each holder.

pub mod identity;
pub mod ledger;
pub mod token;
pub mod transaction;
