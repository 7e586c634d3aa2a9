use debt_ledger::command::{balance_handler, owe_handler};
use debt_ledger::ledger::Accounts;
use debt_ledger::logging::Log;
use debt_ledger::snapshot::{load_accounts, save_accounts};

#[test]
fn test_save_empty_ledger() {
    let accounts = Accounts::new();
    assert_eq!(save_accounts(&accounts), "{}");
}

#[test]
fn test_save_renders_nested_objects() {
    let mut accounts = Accounts::new();
    accounts.apply_debt(1, 2, 500);
    assert_eq!(save_accounts(&accounts), "{\"1\":{\"2\":500},\"2\":{\"1\":-500}}");
}

#[test]
fn test_load_empty_object() {
    let accounts = load_accounts("{}").unwrap();
    assert_eq!(accounts.len(), 0);
}

#[test]
fn test_save_load_roundtrip() {
    let mut accounts = Accounts::new();
    accounts.apply_debt(1, 2, 500);
    let recipients: Vec<u64> = vec![2, 3];
    accounts.apply_split(1, 1000, &recipients);
    accounts.apply_debt(4, 1, -75);

    let saved = save_accounts(&accounts);
    let restored = load_accounts(&saved).unwrap();

    // The restored ledger holds the identical mapping...
    for a in 1u64..=4 {
        for b in 1u64..=4 {
            assert_eq!(accounts.get_bal(a, b), restored.get_bal(a, b));
        }
    }
    // ...and saves back to the identical text.
    assert_eq!(saved, save_accounts(&restored));
}

#[test]
fn test_load_rejects_malformed_text() {
    assert!(load_accounts("").is_err());
    assert!(load_accounts("{").is_err());
    assert!(load_accounts("garbage").is_err());
    assert!(load_accounts("{\"1\":{}").is_err());
    assert!(load_accounts("{\"1\":{}}x").is_err());
    assert!(load_accounts("{\"a\":{}}").is_err());
    assert!(load_accounts("{\"1\":{\"2\":zzz}}").is_err());
    assert!(load_accounts("{\"1\":{\"2\":1.5}}").is_err());
}

#[test]
fn test_load_rejects_duplicate_keys() {
    assert!(load_accounts("{\"1\":{},\"1\":{}}").is_err());
    assert!(load_accounts("{\"1\":{\"2\":5,\"2\":6}}").is_err());
}

#[test]
fn test_load_rejects_out_of_range_balances() {
    // One beyond i64::MAX cents.
    assert!(load_accounts("{\"1\":{\"2\":9223372036854775808}}").is_err());
    assert_eq!(
        load_accounts("{\"1\":{\"2\":-9223372036854775808}}")
            .unwrap()
            .get_bal(1, 2),
        i64::MIN
    );
}

#[test]
fn test_commands_survive_save_load_restore() {
    let mut accounts = Accounts::new();
    let mut log = Log::new();
    owe_handler(&mut accounts, &mut log, 1, Some("$5.00"), Some("lunch"), Some(2)).unwrap();
    let before = balance_handler(&accounts, 2).unwrap().response;

    let saved = save_accounts(&accounts);
    let mut fresh = Accounts::new();
    fresh.restore(load_accounts(&saved).unwrap());
    let after = balance_handler(&fresh, 2).unwrap().response;

    assert_eq!(before, after);
}

#[test]
fn test_corrupt_data_error_message() {
    match load_accounts("nonsense") {
        Err(err) => assert_eq!(err.message(), "corrupt data"),
        Ok(_) => panic!("expected corrupt data"),
    }
}
