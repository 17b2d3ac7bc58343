//! Balance operations over the ledger store.

use vstd::prelude::*;

use crate::storage::{deposit_post, get_balance_post, withdraw_post, Name, Storage};
use crate::transaction::TxError;

verus! {

/// The user-facing balance verbs: thin, named wrappers over the store's
/// primitive credit and debit operations.
pub struct BalanceManager;

impl BalanceManager {
    /// Gets the balance of an account: `Some(balance)` if the account
    /// exists, `None` otherwise.  Pure read, no side effect.
    pub fn get_balance(storage: &Storage, name: &Name) -> (r: Option<i64>)
        requires
            storage.well_formed(),
        ensures
            get_balance_post(storage@, name@, r),
    {
        storage.get_balance_internal(name)
    }

    /// Deposits `amount` into the named account.  The account must have
    /// been created first: a deposit to an unknown name fails with
    /// `InvalidAccount`.  A deposit whose result would be negative is
    /// rejected with `InsufficientFunds`; either failure leaves the
    /// store unchanged.
    pub fn deposit(storage: &mut Storage, name: &Name, amount: i64) -> (r: Result<(), TxError>)
        requires
            old(storage).well_formed(),
            old(storage)@.contains_key(name@) ==> old(storage)@[name@] + amount <= i64::MAX,
        ensures
            final(storage).well_formed(),
            deposit_post(old(storage)@, final(storage)@, name@, amount as int, r),
    {
        storage.deposit_internal(name, amount)
    }

    /// Withdraws `amount` from the named account.  Fails with
    /// `InvalidAccount` when the account does not exist and with
    /// `InsufficientFunds` when the resulting balance would be
    /// negative; either failure leaves the store unchanged.
    pub fn withdraw(storage: &mut Storage, name: &Name, amount: i64) -> (r: Result<(), TxError>)
        requires
            old(storage).well_formed(),
            old(storage)@.contains_key(name@) ==> old(storage)@[name@] - amount <= i64::MAX,
        ensures
            final(storage).well_formed(),
            withdraw_post(old(storage)@, final(storage)@, name@, amount as int, r),
    {
        storage.withdraw_internal(name, amount)
    }
}

/// A withdrawal of more than the account holds fails with
/// `InsufficientFunds` and leaves the balance unchanged.
pub proof fn lemma_withdraw_insufficient(
    pre: Map<Seq<char>, int>,
    post: Map<Seq<char>, int>,
    name: Seq<char>,
    amount: int,
    r: Result<(), TxError>,
)
    requires
        withdraw_post(pre, post, name, amount, r),
        pre.contains_key(name),
        amount > pre[name],
    ensures
        r == Err::<(), TxError>(TxError::InsufficientFunds),
        post == pre,
        post[name] == pre[name],
{
}

} // verus!
