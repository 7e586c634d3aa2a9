//! A small double-entry ledger of pairwise monetary obligations.
//!
//! The ledger tracks, for every pair of user identities, how much one owes
//! the other, in integer minor currency units (cents).  Commands (register a
//! debt, split a bill, query a balance) are validated and applied atomically,
//! every applied mutation is rendered as one human-readable transaction-log
//! line, and the whole ledger state can be saved to and restored from a
//! snapshot string.

pub mod command;
pub mod digits;
pub mod ledger;
pub mod logging;
pub mod money;
pub mod snapshot;
pub mod transaction;
