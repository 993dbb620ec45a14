//! A batch ledger reconciliation engine.
//!
//! An ordered stream of financial transactions (deposits, withdrawals and a
//! dispute lifecycle) is routed by client id to isolated worker ledgers; each
//! ledger applies a per-transaction state machine and the final balances of
//! all clients are merged and sorted for reporting.
//!
//! Monetary amounts are fixed-point decimals: an `i64` or `i128` counts
//! ten-thousandths of a currency unit, so four decimal places are exact.

pub mod account;
pub mod engine;
pub mod ledger;
pub mod report;
pub mod transaction;

pub use account::ClientAccount;
pub use transaction::{Transaction, TransactionType};
