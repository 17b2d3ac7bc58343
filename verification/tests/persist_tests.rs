use bank_system::balance_manager::BalanceManager;
use bank_system::persist::default_accounts;
use bank_system::storage::Storage;
use bank_system::user_manager::UserManager;

fn balance(storage: &Storage, name: &str) -> Option<i64> {
    BalanceManager::get_balance(storage, &name.to_string())
}

#[test]
fn test_load_data_existing_cursor() {
    let data = "John,100\nAlice,200\nBob,50\n";
    let storage = Storage::load_from_str(data);

    assert_eq!(balance(&storage, "John"), Some(100));
    assert_eq!(balance(&storage, "Alice"), Some(200));
    assert_eq!(balance(&storage, "Bob"), Some(50));
    assert_eq!(balance(&storage, "Vasya"), None);
}

#[test]
fn test_save_writes_to_cursor_correctly() {
    let mut storage = Storage::new();
    UserManager::add_user(&mut storage, "John".to_string());
    UserManager::add_user(&mut storage, "Alice".to_string());
    BalanceManager::deposit(&mut storage, &"John".to_string(), 150).unwrap();
    BalanceManager::deposit(&mut storage, &"Alice".to_string(), 300).unwrap();

    let saved = storage.to_csv();
    let mut lines: Vec<&str> = saved.lines().collect();
    lines.sort();

    assert_eq!(lines, vec!["Alice,300", "John,150"]);
}

#[test]
fn malformed_line_is_skipped() {
    let storage = Storage::load_from_str("Alice,100\ngarbage\n");

    assert_eq!(balance(&storage, "Alice"), Some(100));
    assert_eq!(balance(&storage, "garbage"), None);
    assert_eq!(storage.get_all().len(), 1);
}

#[test]
fn unparsable_balance_defaults_to_zero() {
    let storage = Storage::load_from_str("Alice,abc\nBob,12x\nCarl,\n");

    assert_eq!(balance(&storage, "Alice"), Some(0));
    assert_eq!(balance(&storage, "Bob"), Some(0));
    assert_eq!(balance(&storage, "Carl"), Some(0));
}

#[test]
fn signed_fields_parse() {
    let storage = Storage::load_from_str("Plus,+7\nMinus,-5\n");

    assert_eq!(balance(&storage, "Plus"), Some(7));
    // a negative credit on a fresh account is dropped: balances never go below zero
    assert_eq!(balance(&storage, "Minus"), Some(0));
}

#[test]
fn out_of_range_balance_defaults_to_zero() {
    let storage = Storage::load_from_str("Huge,99999999999999999999\nEdge,9223372036854775807\n");

    assert_eq!(balance(&storage, "Huge"), Some(0));
    assert_eq!(balance(&storage, "Edge"), Some(i64::MAX));
}

#[test]
fn repeated_lines_accumulate() {
    let storage = Storage::load_from_str("John,100\nJohn,50\n");

    assert_eq!(balance(&storage, "John"), Some(150));
    assert_eq!(storage.get_all().len(), 1);
}

#[test]
fn empty_text_loads_empty_store() {
    let storage = Storage::load_from_str("");
    assert_eq!(storage.get_all().len(), 0);
}

#[test]
fn missing_trailing_newline_still_loads() {
    let storage = Storage::load_from_str("John,100\nAlice,7");

    assert_eq!(balance(&storage, "John"), Some(100));
    assert_eq!(balance(&storage, "Alice"), Some(7));
}

#[test]
fn save_then_load_round_trips() {
    let mut storage = Storage::new();
    for (name, amount) in [("John", 150), ("Alice", 300), ("Bob", 0), ("Zed", 9001)] {
        UserManager::add_user(&mut storage, name.to_string());
        BalanceManager::deposit(&mut storage, &name.to_string(), amount).unwrap();
    }

    let reloaded = Storage::load_from_str(&storage.to_csv());

    let mut before = storage.get_all();
    let mut after = reloaded.get_all();
    before.sort();
    after.sort();
    assert_eq!(before, after);
}

#[test]
fn default_accounts_seed_at_zero() {
    let names = default_accounts();
    let storage = Storage::with_accounts(&names);

    let mut all = storage.get_all();
    all.sort();
    assert_eq!(
        all,
        vec![
            ("Alice".to_string(), 0),
            ("Bob".to_string(), 0),
            ("John".to_string(), 0),
            ("Vasya".to_string(), 0),
        ]
    );
}
