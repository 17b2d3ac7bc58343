//! An in-memory account ledger with verified invariants.
//!
//! The ledger maps account names to non-negative integer balances and
//! offers creation, removal, deposit, withdrawal and transfer, together
//! with a line-oriented text format for saving and restoring the whole
//! store.  Every operation either fully succeeds or leaves the store
//! unchanged, and no operation can drive a balance below zero.

pub mod balance_manager;
pub mod persist;
pub mod storage;
pub mod transaction;
pub mod user_manager;
