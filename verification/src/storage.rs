//! The ledger store: the account map and its primitive operations.

use vstd::prelude::*;

use crate::transaction::TxError;

verus! {

/// An account name: the sole, case-sensitive key into the ledger.
pub type Name = String;

/// The ledger store.  It owns the mapping from account name to balance
/// and is the only code path that may mutate it.
///
/// Abstractly a store is a finite map from name (a sequence of
/// characters) to balance (an integer); the map is its [`View`].  A
/// well-formed store keeps every balance non-negative and every name
/// unique.
pub struct Storage {
    accounts: Vec<(String, i64)>,
}

/// The map described by a sequence of `(name, balance)` pairs: each pair
/// is inserted in order, so a later pair would override an earlier one
/// with the same name.
pub open spec fn map_of(s: Seq<(String, i64)>) -> Map<Seq<char>, int>
    decreases s.len(),
{
    if s.len() == 0 {
        Map::empty()
    } else {
        map_of(s.drop_last()).insert(s.last().0@, s.last().1 as int)
    }
}

/// No two pairs of the sequence share a name.
pub open spec fn names_unique(s: Seq<(String, i64)>) -> bool {
    forall|i: int, j: int| 0 <= i < j < s.len() ==> (#[trigger] s[i]).0@ != (#[trigger] s[j]).0@
}

/// Every balance of the sequence is non-negative.
pub open spec fn balances_nonneg(s: Seq<(String, i64)>) -> bool {
    forall|i: int| 0 <= i < s.len() ==> (#[trigger] s[i]).1 >= 0
}

impl View for Storage {
    type V = Map<Seq<char>, int>;

    closed spec fn view(&self) -> Map<Seq<char>, int> {
        map_of(self.accounts@)
    }
}

/// What creating an account does: a fresh name opens at balance zero and
/// the call reports `Some(0)`; an existing name is left alone and the
/// call reports `None`.
pub open spec fn add_user_post(
    pre: Map<Seq<char>, int>,
    post: Map<Seq<char>, int>,
    name: Seq<char>,
    r: Option<i64>,
) -> bool {
    match r {
        Some(b) => !pre.contains_key(name) && b == 0 && post == pre.insert(name, 0),
        None => pre.contains_key(name) && post == pre,
    }
}

/// What removing an account does: an existing name is deleted and its
/// final balance handed back; an absent name changes nothing.
pub open spec fn remove_user_post(
    pre: Map<Seq<char>, int>,
    post: Map<Seq<char>, int>,
    name: Seq<char>,
    r: Option<i64>,
) -> bool {
    match r {
        Some(b) => pre.contains_key(name) && b as int == pre[name] && post == pre.remove(name),
        None => !pre.contains_key(name) && post == pre,
    }
}

/// What reading a balance returns: the stored balance for an existing
/// name, `None` for an absent one.
pub open spec fn get_balance_post(m: Map<Seq<char>, int>, name: Seq<char>, r: Option<i64>) -> bool {
    match r {
        Some(b) => m.contains_key(name) && b as int == m[name],
        None => !m.contains_key(name),
    }
}

/// What crediting an account does: an existing account's balance grows by
/// `amount`, except that a credit whose result would be negative is
/// rejected with `InsufficientFunds`; an absent name is rejected with
/// `InvalidAccount`.  Failures leave the store unchanged.
pub open spec fn deposit_post(
    pre: Map<Seq<char>, int>,
    post: Map<Seq<char>, int>,
    name: Seq<char>,
    amount: int,
    r: Result<(), TxError>,
) -> bool {
    match r {
        Ok(u) => pre.contains_key(name) && pre[name] + amount >= 0 && post == pre.insert(
            name,
            pre[name] + amount,
        ),
        Err(TxError::InvalidAccount) => !pre.contains_key(name) && post == pre,
        Err(TxError::InsufficientFunds) => pre.contains_key(name) && pre[name] + amount < 0
            && post == pre,
    }
}

/// What debiting an account does: an existing account's balance shrinks
/// by `amount` when the result stays non-negative; otherwise the call is
/// rejected with `InsufficientFunds`.  An absent name is rejected with
/// `InvalidAccount`.  Failures leave the store unchanged.
pub open spec fn withdraw_post(
    pre: Map<Seq<char>, int>,
    post: Map<Seq<char>, int>,
    name: Seq<char>,
    amount: int,
    r: Result<(), TxError>,
) -> bool {
    match r {
        Ok(u) => pre.contains_key(name) && pre[name] >= amount && post == pre.insert(
            name,
            pre[name] - amount,
        ),
        Err(TxError::InvalidAccount) => !pre.contains_key(name) && post == pre,
        Err(TxError::InsufficientFunds) => pre.contains_key(name) && pre[name] < amount && post
            == pre,
    }
}

/// A name occurs in the map of a pair sequence exactly when some pair
/// carries it.
pub proof fn lemma_map_of_contains(s: Seq<(String, i64)>, n: Seq<char>)
    ensures
        map_of(s).contains_key(n) <==> exists|i: int|
            0 <= i < s.len() && (#[trigger] s[i]).0@ == n,
    decreases s.len(),
{
    if s.len() == 0 {
    } else {
        lemma_map_of_contains(s.drop_last(), n);
        if s.last().0@ == n {
            assert(s[s.len() - 1].0@ == n);
        } else if map_of(s).contains_key(n) {
            let i = choose|i: int| 0 <= i < s.drop_last().len() && (#[trigger] s.drop_last()[i]).0@ == n;
            assert(s[i].0@ == n);
        } else {
            assert forall|i: int| 0 <= i < s.len() implies (#[trigger] s[i]).0@ != n by {
                if i < s.len() - 1 {
                    assert(s.drop_last()[i] == s[i]);
                }
            }
        }
    }
}

/// Under unique names, the map of a pair sequence sends each pair's name
/// to that pair's balance.
pub proof fn lemma_map_of_index(s: Seq<(String, i64)>, i: int)
    requires
        names_unique(s),
        0 <= i < s.len(),
    ensures
        map_of(s).contains_key(s[i].0@),
        map_of(s)[s[i].0@] == s[i].1 as int,
    decreases s.len(),
{
    if i == s.len() - 1 {
    } else {
        assert(names_unique(s.drop_last())) by {
            assert(forall|k: int| 0 <= k < s.len() - 1 ==> s.drop_last()[k] == s[k]);
        }
        assert(s.drop_last()[i] == s[i]);
        lemma_map_of_index(s.drop_last(), i);
        assert(s.last().0@ != s[i].0@);
    }
}

/// Updating the pair at index `i` with a pair of the same name updates
/// the map at that name.
proof fn lemma_map_of_update(s: Seq<(String, i64)>, i: int, p: (String, i64))
    requires
        names_unique(s),
        0 <= i < s.len(),
        p.0@ == s[i].0@,
    ensures
        map_of(s.update(i, p)) == map_of(s).insert(p.0@, p.1 as int),
    decreases s.len(),
{
    let t = s.update(i, p);
    if i == s.len() - 1 {
        assert(t.drop_last() =~= s.drop_last());
        assert(t.last() == p);
        assert(map_of(s.drop_last()).insert(s.last().0@, s.last().1 as int).insert(
            p.0@,
            p.1 as int,
        ) =~= map_of(s.drop_last()).insert(p.0@, p.1 as int));
    } else {
        assert(names_unique(s.drop_last())) by {
            assert(forall|k: int| 0 <= k < s.len() - 1 ==> s.drop_last()[k] == s[k]);
        }
        assert(s.drop_last()[i] == s[i]);
        lemma_map_of_update(s.drop_last(), i, p);
        assert(t.drop_last() =~= s.drop_last().update(i, p));
        assert(t.last() == s.last());
        assert(s.last().0@ != p.0@);
        assert(map_of(s.drop_last()).insert(p.0@, p.1 as int).insert(
            s.last().0@,
            s.last().1 as int,
        ) =~= map_of(s.drop_last()).insert(s.last().0@, s.last().1 as int).insert(p.0@, p.1 as int));
    }
}

/// Removing the pair at index `i` removes its name from the map.
proof fn lemma_map_of_remove(s: Seq<(String, i64)>, i: int)
    requires
        names_unique(s),
        0 <= i < s.len(),
    ensures
        map_of(s.remove(i)) == map_of(s).remove(s[i].0@),
    decreases s.len(),
{
    let t = s.remove(i);
    let n = s[i].0@;
    if i == s.len() - 1 {
        assert(t =~= s.drop_last());
        lemma_map_of_contains(s.drop_last(), n);
        assert forall|k: int| 0 <= k < s.drop_last().len() implies (#[trigger] s.drop_last()[k]).0@
            != n by {
            assert(s.drop_last()[k] == s[k]);
        }
        assert(!map_of(s.drop_last()).contains_key(n));
        assert(map_of(s.drop_last()).insert(n, s.last().1 as int).remove(n) =~= map_of(
            s.drop_last(),
        ));
    } else {
        assert(names_unique(s.drop_last())) by {
            assert(forall|k: int| 0 <= k < s.len() - 1 ==> s.drop_last()[k] == s[k]);
        }
        assert(s.drop_last()[i] == s[i]);
        lemma_map_of_remove(s.drop_last(), i);
        assert(t.drop_last() =~= s.drop_last().remove(i));
        assert(t.last() == s.last());
        assert(s.last().0@ != n);
        assert(map_of(s.drop_last()).remove(n).insert(s.last().0@, s.last().1 as int) =~= map_of(
            s.drop_last(),
        ).insert(s.last().0@, s.last().1 as int).remove(n));
    }
}

/// Appending a pair inserts its name into the map.
pub proof fn lemma_map_of_push(s: Seq<(String, i64)>, p: (String, i64))
    ensures
        map_of(s.push(p)) == map_of(s).insert(p.0@, p.1 as int),
{
    assert(s.push(p).drop_last() =~= s);
    assert(s.push(p).last() == p);
}

/// When the first pair's name occurs nowhere else, the map of a
/// non-empty pair sequence can also be read front-first: the first
/// pair inserted into the map of the rest.
pub proof fn lemma_map_of_unfold_first(s: Seq<(String, i64)>)
    requires
        s.len() > 0,
        forall|i: int| 1 <= i < s.len() ==> (#[trigger] s[i]).0@ != s[0].0@,
    ensures
        map_of(s) == map_of(s.drop_first()).insert(s[0].0@, s[0].1 as int),
    decreases s.len(),
{
    if s.len() == 1 {
        reveal_with_fuel(map_of, 2);
        assert(s.drop_first() =~= Seq::<(String, i64)>::empty());
        assert(s.drop_last() =~= Seq::<(String, i64)>::empty());
    } else {
        let dl = s.drop_last();
        assert(forall|k: int| 0 <= k < dl.len() ==> dl[k] == s[k]);
        lemma_map_of_unfold_first(dl);
        assert(s.last().0@ != s[0].0@);
        assert(map_of(dl.drop_first()).insert(s[0].0@, s[0].1 as int).insert(
            s.last().0@,
            s.last().1 as int,
        ) =~= map_of(dl.drop_first()).insert(s.last().0@, s.last().1 as int).insert(
            s[0].0@,
            s[0].1 as int,
        ));
        assert(s.drop_first() =~= dl.drop_first().push(s.last()));
        lemma_map_of_push(dl.drop_first(), s.last());
    }
}

impl Storage {
    /// Internal invariant of the store: account names are unique and
    /// every balance is non-negative.
    pub closed spec fn well_formed(&self) -> bool {
        names_unique(self.accounts@) && balances_nonneg(self.accounts@)
    }

    /// Every account of a well-formed store holds a balance between zero
    /// and `i64::MAX`, at all times.
    pub proof fn lemma_balances_nonnegative(&self)
        requires
            self.well_formed(),
        ensures
            forall|n: Seq<char>| #[trigger] self@.contains_key(n) ==> 0 <= self@[n] <= i64::MAX,
    {
        assert forall|n: Seq<char>| #[trigger] self@.contains_key(n) implies 0 <= self@[n]
            <= i64::MAX by {
            lemma_map_of_contains(self.accounts@, n);
            let i = choose|i: int|
                0 <= i < self.accounts@.len() && (#[trigger] self.accounts@[i]).0@ == n;
            lemma_map_of_index(self.accounts@, i);
        }
    }

    /// Creates a new, empty store.
    pub fn new() -> (s: Self)
        ensures
            s@ == Map::<Seq<char>, int>::empty(),
            s.well_formed(),
    {
        Storage { accounts: Vec::new() }
    }

    /// Looks the name up in the backing vector.
    fn find_index(&self, name: &String) -> (r: Option<usize>)
        ensures
            match r {
                Some(i) => i < self.accounts@.len() && self.accounts@[i as int].0@ == name@,
                None => forall|j: int|
                    0 <= j < self.accounts@.len() ==> (#[trigger] self.accounts@[j]).0@ != name@,
            },
    {
        let mut i: usize = 0;
        while i < self.accounts.len()
            invariant
                i <= self.accounts@.len(),
                forall|j: int| 0 <= j < i ==> (#[trigger] self.accounts@[j]).0@ != name@,
            decreases self.accounts@.len() - i,
        {
            if self.accounts[i].0 == *name {
                return Some(i);
            }
            i = i + 1;
        }
        None
    }

    /// Creates the account at balance zero if the name is absent;
    /// reports `None`, with no side effect, if it is already present.
    pub(crate) fn add_user_internal(&mut self, name: String) -> (r: Option<i64>)
        requires
            old(self).well_formed(),
        ensures
            final(self).well_formed(),
            add_user_post(old(self)@, final(self)@, name@, r),
    {
        match self.find_index(&name) {
            Some(i) => {
                proof {
                    lemma_map_of_index(self.accounts@, i as int);
                }
                None
            },
            None => {
                proof {
                    lemma_map_of_contains(self.accounts@, name@);
                    lemma_map_of_push(self.accounts@, (name, 0i64));
                }
                let ghost pre = self.accounts@;
                self.accounts.push((name, 0));
                proof {
                    assert(names_unique(self.accounts@)) by {
                        assert(forall|k: int| 0 <= k < pre.len() ==> self.accounts@[k] == pre[k]);
                    }
                }
                Some(0)
            },
        }
    }

    /// Deletes the account if present and returns its final balance;
    /// reports `None`, with no side effect, if the name is absent.
    pub(crate) fn remove_user_internal(&mut self, name: &String) -> (r: Option<i64>)
        requires
            old(self).well_formed(),
        ensures
            final(self).well_formed(),
            remove_user_post(old(self)@, final(self)@, name@, r),
    {
        match self.find_index(name) {
            Some(i) => {
                let bal = self.accounts[i].1;
                proof {
                    lemma_map_of_index(self.accounts@, i as int);
                    lemma_map_of_remove(self.accounts@, i as int);
                }
                let ghost pre = self.accounts@;
                self.accounts.remove(i);
                proof {
                    assert(names_unique(self.accounts@) && balances_nonneg(self.accounts@)) by {
                        assert(forall|k: int|
                            0 <= k < self.accounts@.len() ==> self.accounts@[k] == pre.remove(
                                i as int,
                            )[k]);
                    }
                }
                Some(bal)
            },
            None => {
                proof {
                    lemma_map_of_contains(self.accounts@, name@);
                }
                None
            },
        }
    }

    /// Pure read: the balance of an existing account, else `None`.
    pub(crate) fn get_balance_internal(&self, name: &String) -> (r: Option<i64>)
        requires
            self.well_formed(),
        ensures
            get_balance_post(self@, name@, r),
    {
        match self.find_index(name) {
            Some(i) => {
                proof {
                    lemma_map_of_index(self.accounts@, i as int);
                }
                Some(self.accounts[i].1)
            },
            None => {
                proof {
                    lemma_map_of_contains(self.accounts@, name@);
                }
                None
            },
        }
    }

    /// Adds `amount` to an existing account's balance.  The caller may
    /// pass any integer; a credit whose result would be negative is
    /// rejected, so a well-formed store stays well-formed.
    pub(crate) fn deposit_internal(&mut self, name: &String, amount: i64) -> (r: Result<
        (),
        TxError,
    >)
        requires
            old(self).well_formed(),
            old(self)@.contains_key(name@) ==> old(self)@[name@] + amount <= i64::MAX,
        ensures
            final(self).well_formed(),
            deposit_post(old(self)@, final(self)@, name@, amount as int, r),
    {
        match self.find_index(name) {
            Some(i) => {
                let b = self.accounts[i].1;
                proof {
                    lemma_map_of_index(self.accounts@, i as int);
                }
                if b + amount < 0 {
                    Err(TxError::InsufficientFunds)
                } else {
                    proof {
                        lemma_map_of_update(
                            self.accounts@,
                            i as int,
                            (self.accounts@[i as int].0, (b + amount) as i64),
                        );
                    }
                    let ghost pre = self.accounts@;
                    self.accounts[i].1 = b + amount;
                    proof {
                        assert(self.accounts@ =~= pre.update(
                            i as int,
                            (pre[i as int].0, (b + amount) as i64),
                        ));
                        assert(names_unique(self.accounts@) && balances_nonneg(self.accounts@)) by {
                            assert(forall|k: int|
                                0 <= k < pre.len() && k != i ==> self.accounts@[k] == pre[k]);
                        }
                    }
                    Ok(())
                }
            },
            None => {
                proof {
                    lemma_map_of_contains(self.accounts@, name@);
                }
                Err(TxError::InvalidAccount)
            },
        }
    }

    /// Subtracts `amount` from an existing account's balance, only when
    /// the result stays non-negative.
    pub(crate) fn withdraw_internal(&mut self, name: &String, amount: i64) -> (r: Result<
        (),
        TxError,
    >)
        requires
            old(self).well_formed(),
            old(self)@.contains_key(name@) ==> old(self)@[name@] - amount <= i64::MAX,
        ensures
            final(self).well_formed(),
            withdraw_post(old(self)@, final(self)@, name@, amount as int, r),
    {
        match self.find_index(name) {
            Some(i) => {
                let b = self.accounts[i].1;
                proof {
                    lemma_map_of_index(self.accounts@, i as int);
                }
                if b >= amount {
                    proof {
                        lemma_map_of_update(
                            self.accounts@,
                            i as int,
                            (self.accounts@[i as int].0, (b - amount) as i64),
                        );
                    }
                    let ghost pre = self.accounts@;
                    self.accounts[i].1 = b - amount;
                    proof {
                        assert(self.accounts@ =~= pre.update(
                            i as int,
                            (pre[i as int].0, (b - amount) as i64),
                        ));
                        assert(names_unique(self.accounts@) && balances_nonneg(self.accounts@)) by {
                            assert(forall|k: int|
                                0 <= k < pre.len() && k != i ==> self.accounts@[k] == pre[k]);
                        }
                    }
                    Ok(())
                } else {
                    Err(TxError::InsufficientFunds)
                }
            },
            None => {
                proof {
                    lemma_map_of_contains(self.accounts@, name@);
                }
                Err(TxError::InvalidAccount)
            },
        }
    }

    /// A full snapshot of the store: one `(name, balance)` pair per
    /// account, in an unspecified order, safe to call repeatedly.
    pub fn get_all(&self) -> (r: Vec<(String, i64)>)
        requires
            self.well_formed(),
        ensures
            map_of(r@) == self@,
            names_unique(r@),
            balances_nonneg(r@),
    {
        let mut out: Vec<(String, i64)> = Vec::new();
        let mut i: usize = 0;
        while i < self.accounts.len()
            invariant
                i <= self.accounts@.len(),
                out@.len() == i,
                forall|j: int| 0 <= j < i ==> out@[j] == self.accounts@[j],
            decreases self.accounts@.len() - i,
        {
            let name = self.accounts[i].0.clone();
            let bal = self.accounts[i].1;
            out.push((name, bal));
            i = i + 1;
        }
        proof {
            assert(out@ =~= self.accounts@);
        }
        out
    }

    /// Creates a store holding one zero-balance account per listed name;
    /// a repeated name is created once.
    pub fn with_accounts(names: &Vec<String>) -> (s: Storage)
        ensures
            s.well_formed(),
            forall|n: Seq<char>| #[trigger] s@.contains_key(n) ==> s@[n] == 0,
            forall|j: int| 0 <= j < names@.len() ==> s@.contains_key((#[trigger] names@[j])@),
            forall|n: Seq<char>| #[trigger] s@.contains_key(n) ==> exists|j: int|
                0 <= j < names@.len() && (#[trigger] names@[j])@ == n,
    {
        let mut s = Storage::new();
        let mut i: usize = 0;
        while i < names.len()
            invariant
                i <= names@.len(),
                s.well_formed(),
                forall|n: Seq<char>| #[trigger] s@.contains_key(n) ==> s@[n] == 0,
                forall|j: int| 0 <= j < i ==> s@.contains_key((#[trigger] names@[j])@),
                forall|n: Seq<char>| #[trigger] s@.contains_key(n) ==> exists|j: int|
                    0 <= j < i && (#[trigger] names@[j])@ == n,
            decreases names@.len() - i,
        {
            let _ = s.add_user_internal(names[i].clone());
            i = i + 1;
        }
        s
    }
}

impl Default for Storage {
    /// The default store is empty.
    fn default() -> (s: Self)
        ensures
            s@ == Map::<Seq<char>, int>::empty(),
            s.well_formed(),
    {
        Storage::new()
    }
}

} // verus!
