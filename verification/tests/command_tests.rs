use debt_ledger::command::{
    balance_handler, bill_handler, owe_handler, GetLockError, HandleCommandError,
};
use debt_ledger::ledger::Accounts;
use debt_ledger::logging::Log;
use debt_ledger::transaction::TransactionType;

#[test]
fn test_owe_handler_applies_debt_and_logs() {
    let mut accounts = Accounts::new();
    let mut log = Log::new();
    let result = owe_handler(
        &mut accounts,
        &mut log,
        1,
        Some("$5.00"),
        Some("lunch"),
        Some(2),
    )
    .unwrap();

    // The recipient is owed the amount by the initiator.
    assert_eq!(accounts.get_bal(2, 1), 500);
    assert_eq!(accounts.get_bal(1, 2), -500);
    assert_eq!(result.response, "1 owes $5.00 to 2 for lunch");
    match result.transaction {
        Some(TransactionType::Owe(t)) => {
            assert_eq!(t.initiator, 1);
            assert_eq!(t.amount, 500);
            assert_eq!(t.recipient, 2);
            assert_eq!(t.description, "lunch");
        }
        _ => panic!("expected a debt transaction"),
    }
    assert_eq!(log.len(), 1);
    assert_eq!(log.line_at(0), "1 owes $5.00 to 2 for \"lunch\"");
}

#[test]
fn test_owe_handler_rejects_missing_fields() {
    let mut accounts = Accounts::new();
    let mut log = Log::new();
    assert!(owe_handler(&mut accounts, &mut log, 1, None, Some("x"), Some(2)).is_err());
    assert!(owe_handler(&mut accounts, &mut log, 1, Some("1.00"), None, Some(2)).is_err());
    assert!(owe_handler(&mut accounts, &mut log, 1, Some("1.00"), Some("x"), None).is_err());
    assert!(owe_handler(&mut accounts, &mut log, 1, Some("nope"), Some("x"), Some(2)).is_err());
    // Nothing was applied or logged.
    assert_eq!(accounts.get_bal(1, 2), 0);
    assert_eq!(log.len(), 0);
}

#[test]
fn test_owe_handler_rejects_overflowing_debt() {
    let mut accounts = Accounts::new();
    accounts.apply_debt(2, 1, i64::MAX);
    let mut log = Log::new();
    let r = owe_handler(&mut accounts, &mut log, 1, Some("0.01"), Some("x"), Some(2));
    assert!(r.is_err());
    assert_eq!(accounts.get_bal(2, 1), i64::MAX);
    assert_eq!(log.len(), 0);
}

#[test]
fn test_bill_handler_charges_each_recipient() {
    let mut accounts = Accounts::new();
    let mut log = Log::new();
    let recipients: Vec<u64> = vec![2, 3];
    let result = bill_handler(
        &mut accounts,
        &mut log,
        1,
        Some("$10.00"),
        Some("rent"),
        &recipients,
    )
    .unwrap();

    assert_eq!(accounts.get_bal(2, 1), -1000);
    assert_eq!(accounts.get_bal(3, 1), -1000);
    assert_eq!(accounts.get_bal(1, 2), 1000);
    assert_eq!(accounts.get_bal(1, 3), 1000);
    assert_eq!(result.response, "1 billed $10.00 to 2 users for rent");
    match result.transaction {
        Some(TransactionType::Bill(t)) => {
            assert_eq!(t.initiator, 1);
            assert_eq!(t.amount, 1000);
            assert_eq!(t.recipients, vec![2, 3]);
            assert_eq!(t.description, "rent");
        }
        _ => panic!("expected a bill transaction"),
    }
    assert_eq!(log.len(), 1);
    assert_eq!(log.line_at(0), "1 billed $10.00 to 2 3 for \"rent\"");
}

#[test]
fn test_bill_handler_empty_recipients_is_recorded_no_op() {
    let mut accounts = Accounts::new();
    accounts.apply_debt(1, 2, 42);
    let mut log = Log::new();
    let empty: Vec<u64> = Vec::new();
    let result = bill_handler(
        &mut accounts,
        &mut log,
        1,
        Some("$10.00"),
        Some("nothing"),
        &empty,
    )
    .unwrap();

    // No balance changed, but the transaction exists with zero recipients.
    assert_eq!(accounts.get_bal(1, 2), 42);
    assert_eq!(result.response, "1 billed $10.00 to 0 users for nothing");
    match result.transaction {
        Some(TransactionType::Bill(t)) => {
            assert_eq!(t.recipients.len(), 0);
        }
        _ => panic!("expected a bill transaction"),
    }
    assert_eq!(log.len(), 1);
    assert_eq!(log.line_at(0), "1 billed $10.00 to for \"nothing\"");
}

#[test]
fn test_bill_handler_rejects_missing_fields() {
    let mut accounts = Accounts::new();
    let mut log = Log::new();
    let recipients: Vec<u64> = vec![2];
    assert!(bill_handler(&mut accounts, &mut log, 1, None, Some("x"), &recipients).is_err());
    assert!(bill_handler(&mut accounts, &mut log, 1, Some("1.00"), None, &recipients).is_err());
    assert!(bill_handler(&mut accounts, &mut log, 1, Some("0.1"), Some("x"), &recipients).is_err());
    assert_eq!(accounts.get_bal(1, 2), 0);
    assert_eq!(log.len(), 0);
}

#[test]
fn test_balance_handler_lists_counterparties() {
    let mut accounts = Accounts::new();
    let mut log = Log::new();
    owe_handler(&mut accounts, &mut log, 1, Some("$5.00"), Some("lunch"), Some(2)).unwrap();
    let result = balance_handler(&accounts, 2).unwrap();
    let expected = format!("2's balance:\n`{:<32}{:>16}`\n", "1", "$5.00");
    assert_eq!(result.response, expected);
    assert!(result.transaction.is_none());
}

#[test]
fn test_balance_handler_empty_account() {
    let accounts = Accounts::new();
    let result = balance_handler(&accounts, 9).unwrap();
    assert_eq!(result.response, "9's balance:\n");
    assert!(result.transaction.is_none());
}

#[test]
fn test_error_messages() {
    assert_eq!(HandleCommandError.message(), "could not get content");
    assert_eq!(GetLockError.message(), "could not get lock");
    assert_eq!(
        debt_ledger::money::ParseMoneyError.message(),
        "could not parse money"
    );
}
