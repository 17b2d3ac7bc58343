//! User account management over the ledger store.

use vstd::prelude::*;

use crate::storage::{add_user_post, remove_user_post, Name, Storage};

verus! {

/// The user-facing account verbs: thin, named wrappers over the store's
/// primitive create and remove operations.
pub struct UserManager;

impl UserManager {
    /// Adds a new account with zero balance.  Returns `Some(0)` if the
    /// account was created, `None` (with no side effect) if the name is
    /// already taken.
    pub fn add_user(storage: &mut Storage, name: Name) -> (r: Option<i64>)
        requires
            old(storage).well_formed(),
        ensures
            final(storage).well_formed(),
            add_user_post(old(storage)@, final(storage)@, name@, r),
    {
        storage.add_user_internal(name)
    }

    /// Removes an account and returns its final balance.  Returns
    /// `Some(balance)` if the account existed, `None` (with no side
    /// effect) if the name is absent.
    pub fn remove_user(storage: &mut Storage, name: &Name) -> (r: Option<i64>)
        requires
            old(storage).well_formed(),
        ensures
            final(storage).well_formed(),
            remove_user_post(old(storage)@, final(storage)@, name@, r),
    {
        storage.remove_user_internal(name)
    }
}

/// Creating the same account twice: the first call opens it at balance
/// zero, the second fails and leaves the store, and the account's zero
/// balance, unchanged.
pub proof fn lemma_create_twice(
    m0: Map<Seq<char>, int>,
    m1: Map<Seq<char>, int>,
    m2: Map<Seq<char>, int>,
    name: Seq<char>,
    r1: Option<i64>,
    r2: Option<i64>,
)
    requires
        !m0.contains_key(name),
        add_user_post(m0, m1, name, r1),
        add_user_post(m1, m2, name, r2),
    ensures
        r1 == Some(0i64),
        r2 is None,
        m2 == m1,
        m1[name] == 0,
{
}

} // verus!
