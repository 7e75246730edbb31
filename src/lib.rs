//! A single-process proof-of-authority ledger: accounts with balances,
//! a fee-ordered transaction pool, an elected authority and the
//! append-only chain it feeds.
pub mod address;
pub mod authority;
pub mod chain;
pub mod ledger;
pub mod pool;
pub mod transaction;

pub use address::{address_from_bytes, random_address};
pub use authority::{AuthorityError, AuthorityState, ElectionEvent, Node};
pub use chain::{Block, Blockchain};
pub use ledger::{LedgerError, User, UserMap};
pub use pool::{Mempool, PoolEvent};
pub use transaction::Transaction;
