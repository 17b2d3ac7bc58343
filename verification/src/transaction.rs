//! Named transactions over the ledger store.

use vstd::prelude::*;

use crate::storage::{deposit_post, Storage};

verus! {

/// A typed failure signal for ledger operations.
///
/// `InsufficientFunds` reports a mutation that would drive some balance
/// below zero; `InvalidAccount` reports an operation on a name that is
/// absent from the store.
#[derive(Debug, PartialEq, Eq, Structural, Clone, Copy)]
pub enum TxError {
    InsufficientFunds,
    InvalidAccount,
}

/// The balance a transfer sees at its destination: an absent account
/// counts as zero, since the destination is created on demand.
pub open spec fn balance_or_zero(m: Map<Seq<char>, int>, n: Seq<char>) -> int {
    if m.contains_key(n) {
        m[n]
    } else {
        0
    }
}

/// What a transfer does.  On success the source, which must exist and
/// hold at least `amount`, is debited and the destination — created at
/// zero if absent — is credited; a transfer of an account to itself
/// changes nothing.  The call fails with `InsufficientFunds`, leaving
/// the store untouched, when the source is absent, holds less than
/// `amount`, or the credit would leave the destination negative.
pub open spec fn transfer_post(
    pre: Map<Seq<char>, int>,
    post: Map<Seq<char>, int>,
    from: Seq<char>,
    to: Seq<char>,
    amount: int,
    r: Result<(), TxError>,
) -> bool {
    match r {
        Ok(u) => pre.contains_key(from) && pre[from] >= amount && (from == to ==> post == pre) && (
        from != to ==> balance_or_zero(pre, to) + amount >= 0 && post == pre.insert(
            from,
            pre[from] - amount,
        ).insert(to, balance_or_zero(pre, to) + amount)),
        Err(TxError::InsufficientFunds) => post == pre && (!pre.contains_key(from) || pre[from]
            < amount || (from != to && balance_or_zero(pre, to) + amount < 0)),
        Err(TxError::InvalidAccount) => false,
    }
}

/// A transaction: a named mutation of the store that either fully
/// succeeds or has no effect.
pub trait Transaction {
    /// The machine-width bounds under which the transaction can be
    /// applied without overflowing a balance.
    spec fn valid(&self, pre: Map<Seq<char>, int>) -> bool;

    /// How the store after the call and the call's outcome relate to
    /// the store before it.
    spec fn applies(
        &self,
        pre: Map<Seq<char>, int>,
        post: Map<Seq<char>, int>,
        r: Result<(), TxError>,
    ) -> bool;

    /// Applies the transaction to the store.
    fn apply(&self, accounts: &mut Storage) -> (r: Result<(), TxError>)
        requires
            old(accounts).well_formed(),
            self.valid(old(accounts)@),
        ensures
            final(accounts).well_formed(),
            self.applies(old(accounts)@, final(accounts)@, r),
    ;
}

/// A deposit into a named account.
pub struct Deposit {
    pub account: String,
    pub amount: i64,
}

impl Transaction for Deposit {
    open spec fn valid(&self, pre: Map<Seq<char>, int>) -> bool {
        pre.contains_key(self.account@) ==> pre[self.account@] + self.amount <= i64::MAX
    }

    open spec fn applies(
        &self,
        pre: Map<Seq<char>, int>,
        post: Map<Seq<char>, int>,
        r: Result<(), TxError>,
    ) -> bool {
        deposit_post(pre, post, self.account@, self.amount as int, r)
    }

    /// A deposit behaves exactly like the balance manager's deposit:
    /// the account must already exist.
    fn apply(&self, accounts: &mut Storage) -> (r: Result<(), TxError>) {
        accounts.deposit_internal(&self.account, self.amount)
    }
}

/// A transfer between two named accounts.
pub struct Transfer {
    pub from: String,
    pub to: String,
    pub amount: i64,
}

impl Transaction for Transfer {
    open spec fn valid(&self, pre: Map<Seq<char>, int>) -> bool {
        &&& (pre.contains_key(self.from@) ==> pre[self.from@] - self.amount <= i64::MAX)
        &&& (self.from@ != self.to@ ==> balance_or_zero(pre, self.to@) + self.amount <= i64::MAX)
    }

    open spec fn applies(
        &self,
        pre: Map<Seq<char>, int>,
        post: Map<Seq<char>, int>,
        r: Result<(), TxError>,
    ) -> bool {
        transfer_post(pre, post, self.from@, self.to@, self.amount as int, r)
    }

    /// Checks every condition before touching the store, so a failure
    /// has no effect; then debits the source and credits the
    /// destination, creating the destination at zero if needed.
    fn apply(&self, accounts: &mut Storage) -> (r: Result<(), TxError>) {
        proof {
            accounts.lemma_balances_nonnegative();
        }
        let fb: i64 = match accounts.get_balance_internal(&self.from) {
            Some(b) => b,
            None => {
                return Err(TxError::InsufficientFunds);
            },
        };
        if fb < self.amount {
            return Err(TxError::InsufficientFunds);
        }
        if self.from == self.to {
            return Ok(());
        }
        let to_exists: bool;
        let tb: i64;
        match accounts.get_balance_internal(&self.to) {
            Some(b) => {
                to_exists = true;
                tb = b;
            },
            None => {
                to_exists = false;
                tb = 0;
            },
        }
        if tb + self.amount < 0 {
            return Err(TxError::InsufficientFunds);
        }
        let r1 = accounts.withdraw_internal(&self.from, self.amount);
        proof {
            assert(r1 is Ok);
        }
        if !to_exists {
            let _ = accounts.add_user_internal(self.to.clone());
        }
        let r2 = accounts.deposit_internal(&self.to, self.amount);
        proof {
            assert(r2 is Ok);
            assert(accounts@ =~= old(accounts)@.insert(
                self.from@,
                old(accounts)@[self.from@] - self.amount,
            ).insert(self.to@, balance_or_zero(old(accounts)@, self.to@) + self.amount));
        }
        Ok(())
    }
}

/// Conservation: a successful transfer of `n` between two distinct
/// existing accounts moves exactly `n` from source to destination and
/// leaves the sum of the two balances unchanged.
pub proof fn lemma_transfer_conserves(
    pre: Map<Seq<char>, int>,
    post: Map<Seq<char>, int>,
    from: Seq<char>,
    to: Seq<char>,
    n: int,
)
    requires
        transfer_post(pre, post, from, to, n, Ok(())),
        from != to,
        pre.contains_key(from),
        pre.contains_key(to),
    ensures
        post[from] == pre[from] - n,
        post[to] == pre[to] + n,
        post[from] + post[to] == pre[from] + pre[to],
{
}

} // verus!
