use bank_system::balance_manager::BalanceManager;
use bank_system::storage::Storage;
use bank_system::transaction::{Deposit, Transaction, Transfer, TxError};
use bank_system::user_manager::UserManager;

#[test]
fn test_get_balance() {
    let mut storage = Storage::new();
    UserManager::add_user(&mut storage, "Alice".to_string());

    assert_eq!(
        BalanceManager::get_balance(&storage, &"Alice".to_string()),
        Some(0)
    );
    assert_eq!(
        BalanceManager::get_balance(&storage, &"Nobody".to_string()),
        None
    );
}

#[test]
fn test_deposit_and_withdraw() {
    let mut storage = Storage::new();
    UserManager::add_user(&mut storage, "Charlie".to_string());

    assert!(BalanceManager::deposit(&mut storage, &"Charlie".to_string(), 200).is_ok());
    assert_eq!(
        BalanceManager::get_balance(&storage, &"Charlie".to_string()),
        Some(200)
    );

    assert!(BalanceManager::withdraw(&mut storage, &"Charlie".to_string(), 150).is_ok());
    assert_eq!(
        BalanceManager::get_balance(&storage, &"Charlie".to_string()),
        Some(50)
    );

    assert!(BalanceManager::withdraw(&mut storage, &"Charlie".to_string(), 100).is_err());
    assert_eq!(
        BalanceManager::get_balance(&storage, &"Charlie".to_string()),
        Some(50)
    );
}

#[test]
fn test_nonexistent_user() {
    let mut storage = Storage::new();

    assert!(BalanceManager::deposit(&mut storage, &"Dana".to_string(), 100).is_err());
    assert!(BalanceManager::withdraw(&mut storage, &"Dana".to_string(), 50).is_err());
    assert_eq!(
        BalanceManager::get_balance(&storage, &"Dana".to_string()),
        None
    );
}

#[test]
fn test_add_user() {
    let mut storage = Storage::new();
    assert_eq!(
        UserManager::add_user(&mut storage, "Alice".to_string()),
        Some(0)
    );
    assert_eq!(UserManager::add_user(&mut storage, "Alice".to_string()), None);
}

#[test]
fn test_remove_user() {
    let mut storage = Storage::new();
    UserManager::add_user(&mut storage, "Bob".to_string());

    assert_eq!(
        UserManager::remove_user(&mut storage, &"Bob".to_string()),
        Some(0)
    );
    assert_eq!(UserManager::remove_user(&mut storage, &"Bob".to_string()), None);
}

#[test]
fn remove_user_returns_final_balance() {
    let mut storage = Storage::new();
    UserManager::add_user(&mut storage, "Eve".to_string());
    BalanceManager::deposit(&mut storage, &"Eve".to_string(), 75).unwrap();

    assert_eq!(
        UserManager::remove_user(&mut storage, &"Eve".to_string()),
        Some(75)
    );
    assert_eq!(
        BalanceManager::get_balance(&storage, &"Eve".to_string()),
        None
    );
}

#[test]
fn deposit_unknown_account_is_invalid_account() {
    let mut storage = Storage::new();
    assert_eq!(
        BalanceManager::deposit(&mut storage, &"Dana".to_string(), 10),
        Err(TxError::InvalidAccount)
    );
}

#[test]
fn withdraw_errors_are_typed() {
    let mut storage = Storage::new();
    UserManager::add_user(&mut storage, "Ann".to_string());
    BalanceManager::deposit(&mut storage, &"Ann".to_string(), 30).unwrap();

    assert_eq!(
        BalanceManager::withdraw(&mut storage, &"Ann".to_string(), 31),
        Err(TxError::InsufficientFunds)
    );
    assert_eq!(
        BalanceManager::withdraw(&mut storage, &"Gone".to_string(), 1),
        Err(TxError::InvalidAccount)
    );
    assert_eq!(
        BalanceManager::get_balance(&storage, &"Ann".to_string()),
        Some(30)
    );
}

#[test]
fn negative_deposit_cannot_overdraw() {
    let mut storage = Storage::new();
    UserManager::add_user(&mut storage, "Ann".to_string());
    BalanceManager::deposit(&mut storage, &"Ann".to_string(), 30).unwrap();

    // a negative credit is accepted while the balance stays non-negative
    assert!(BalanceManager::deposit(&mut storage, &"Ann".to_string(), -20).is_ok());
    assert_eq!(
        BalanceManager::get_balance(&storage, &"Ann".to_string()),
        Some(10)
    );
    // and rejected once it would drive the balance below zero
    assert_eq!(
        BalanceManager::deposit(&mut storage, &"Ann".to_string(), -11),
        Err(TxError::InsufficientFunds)
    );
    assert_eq!(
        BalanceManager::get_balance(&storage, &"Ann".to_string()),
        Some(10)
    );
}

#[test]
fn scenario_create_deposit_withdraw_transfer() {
    let mut storage = Storage::new();

    assert_eq!(
        UserManager::add_user(&mut storage, "John".to_string()),
        Some(0)
    );
    assert!(BalanceManager::deposit(&mut storage, &"John".to_string(), 200).is_ok());
    assert_eq!(
        BalanceManager::get_balance(&storage, &"John".to_string()),
        Some(200)
    );

    assert_eq!(
        BalanceManager::withdraw(&mut storage, &"John".to_string(), 250),
        Err(TxError::InsufficientFunds)
    );
    assert_eq!(
        BalanceManager::get_balance(&storage, &"John".to_string()),
        Some(200)
    );

    let tx = Transfer {
        from: "John".to_string(),
        to: "Mary".to_string(),
        amount: 50,
    };
    assert!(tx.apply(&mut storage).is_ok());
    assert_eq!(
        BalanceManager::get_balance(&storage, &"John".to_string()),
        Some(150)
    );
    assert_eq!(
        BalanceManager::get_balance(&storage, &"Mary".to_string()),
        Some(50)
    );
}

#[test]
fn transfer_conserves_total() {
    let mut storage = Storage::new();
    UserManager::add_user(&mut storage, "A".to_string());
    UserManager::add_user(&mut storage, "B".to_string());
    BalanceManager::deposit(&mut storage, &"A".to_string(), 70).unwrap();
    BalanceManager::deposit(&mut storage, &"B".to_string(), 30).unwrap();

    let tx = Transfer {
        from: "A".to_string(),
        to: "B".to_string(),
        amount: 25,
    };
    assert!(tx.apply(&mut storage).is_ok());

    let a = BalanceManager::get_balance(&storage, &"A".to_string()).unwrap();
    let b = BalanceManager::get_balance(&storage, &"B".to_string()).unwrap();
    assert_eq!(a, 45);
    assert_eq!(b, 55);
    assert_eq!(a + b, 100);
}

#[test]
fn transfer_failures_leave_store_untouched() {
    let mut storage = Storage::new();
    UserManager::add_user(&mut storage, "A".to_string());
    BalanceManager::deposit(&mut storage, &"A".to_string(), 10).unwrap();

    // more than the source holds
    let tx = Transfer {
        from: "A".to_string(),
        to: "B".to_string(),
        amount: 11,
    };
    assert_eq!(tx.apply(&mut storage), Err(TxError::InsufficientFunds));
    assert_eq!(
        BalanceManager::get_balance(&storage, &"A".to_string()),
        Some(10)
    );
    // the failed transfer must not have created the destination
    assert_eq!(BalanceManager::get_balance(&storage, &"B".to_string()), None);

    // an absent source counts as insufficient funds
    let tx = Transfer {
        from: "Ghost".to_string(),
        to: "A".to_string(),
        amount: 1,
    };
    assert_eq!(tx.apply(&mut storage), Err(TxError::InsufficientFunds));
    assert_eq!(BalanceManager::get_balance(&storage, &"Ghost".to_string()), None);
}

#[test]
fn transfer_to_self_changes_nothing() {
    let mut storage = Storage::new();
    UserManager::add_user(&mut storage, "A".to_string());
    BalanceManager::deposit(&mut storage, &"A".to_string(), 40).unwrap();

    let tx = Transfer {
        from: "A".to_string(),
        to: "A".to_string(),
        amount: 15,
    };
    assert!(tx.apply(&mut storage).is_ok());
    assert_eq!(
        BalanceManager::get_balance(&storage, &"A".to_string()),
        Some(40)
    );
}

#[test]
fn deposit_transaction_requires_existing_account() {
    let mut storage = Storage::new();

    let tx = Deposit {
        account: "New".to_string(),
        amount: 5,
    };
    assert_eq!(tx.apply(&mut storage), Err(TxError::InvalidAccount));

    UserManager::add_user(&mut storage, "New".to_string());
    assert!(tx.apply(&mut storage).is_ok());
    assert_eq!(
        BalanceManager::get_balance(&storage, &"New".to_string()),
        Some(5)
    );
}

#[test]
fn get_all_lists_every_account_once() {
    let mut storage = Storage::new();
    UserManager::add_user(&mut storage, "A".to_string());
    UserManager::add_user(&mut storage, "B".to_string());
    BalanceManager::deposit(&mut storage, &"B".to_string(), 9).unwrap();

    let mut all = storage.get_all();
    all.sort();
    assert_eq!(all, vec![("A".to_string(), 0), ("B".to_string(), 9)]);
}
