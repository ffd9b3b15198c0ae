//! An in-memory ledger of named accounts: deposits, withdrawals and transfers,
//! transactions that compose into chains, a ranking of the accounts by their
//! recent operations, and the snapshot of the accounts as text.

pub mod accounts;
pub mod analytics;
pub mod errors;
pub mod operations;
pub mod snapshot;
pub mod storage;
pub mod text;
pub mod transaction;
mod tx_chain;

pub use accounts::{Accounts, Ledger};
pub use analytics::{find_best, Ratio};
pub use errors::{BalanceManagerError, BalanceManagerErrorView};
pub use operations::{Balance, BalanceView, OpKind};
pub use snapshot::{format_line, parse_line};
pub use storage::{BalanceManager, Storage};
pub use transaction::{Deposit, Transaction, Transfer, TxCombinator, TxError, Withdraw};
pub use tx_chain::tx_chain;

use vstd::prelude::*;

verus! {

/// The name of an account.
pub type Name = String;

} // verus!
