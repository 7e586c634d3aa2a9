use debt_ledger::ledger::Accounts;
use debt_ledger::snapshot::save_accounts;

#[test]
fn test_apply_debt_double_entry() {
    let mut accounts = Accounts::new();
    accounts.apply_debt(1, 2, 500);
    assert_eq!(accounts.get_balances(1).get_or_zero(2), 500);
    assert_eq!(accounts.get_balances(2).get_or_zero(1), -500);
    assert_eq!(accounts.get_bal(1, 2), 500);
    assert_eq!(accounts.get_bal(2, 1), -500);
}

#[test]
fn test_apply_debt_accumulates() {
    let mut accounts = Accounts::new();
    accounts.apply_debt(1, 2, 500);
    accounts.apply_debt(1, 2, 250);
    accounts.apply_debt(2, 1, 100);
    assert_eq!(accounts.get_bal(1, 2), 650);
    assert_eq!(accounts.get_bal(2, 1), -650);
}

#[test]
fn test_apply_debt_negative_amount_reverses() {
    let mut accounts = Accounts::new();
    accounts.apply_debt(1, 2, -300);
    assert_eq!(accounts.get_bal(1, 2), -300);
    assert_eq!(accounts.get_bal(2, 1), 300);
}

#[test]
fn test_apply_split_charges_each_recipient_fully() {
    let mut accounts = Accounts::new();
    let recipients: Vec<u64> = vec![2, 3];
    accounts.apply_split(1, 1000, &recipients);
    assert_eq!(accounts.get_bal(2, 1), -1000);
    assert_eq!(accounts.get_bal(3, 1), -1000);
    assert_eq!(accounts.get_bal(1, 2), 1000);
    assert_eq!(accounts.get_bal(1, 3), 1000);
}

#[test]
fn test_apply_split_empty_is_no_op() {
    let mut accounts = Accounts::new();
    accounts.apply_debt(1, 2, 77);
    let before = save_accounts(&accounts);
    let recipients: Vec<u64> = Vec::new();
    accounts.apply_split(1, 1000, &recipients);
    let after = save_accounts(&accounts);
    assert_eq!(before, after);
}

#[test]
fn test_apply_split_repeated_recipient_charges_twice() {
    let mut accounts = Accounts::new();
    let recipients: Vec<u64> = vec![2, 2];
    accounts.apply_split(1, 400, &recipients);
    assert_eq!(accounts.get_bal(1, 2), 800);
    assert_eq!(accounts.get_bal(2, 1), -800);
}

#[test]
fn test_disjoint_debts_commute() {
    let mut one = Accounts::new();
    one.apply_debt(1, 2, 500);
    one.apply_debt(3, 4, -250);

    let mut other = Accounts::new();
    other.apply_debt(3, 4, -250);
    other.apply_debt(1, 2, 500);

    assert_eq!(one.get_bal(1, 2), other.get_bal(1, 2));
    assert_eq!(one.get_bal(2, 1), other.get_bal(2, 1));
    assert_eq!(one.get_bal(3, 4), other.get_bal(3, 4));
    assert_eq!(one.get_bal(4, 3), other.get_bal(4, 3));
}

#[test]
fn test_debt_fits_check_detects_overflow() {
    let mut accounts = Accounts::new();
    accounts.apply_debt(1, 2, i64::MAX);
    assert!(!accounts.debt_fits_check(1, 2, 1));
    assert!(accounts.debt_fits_check(1, 2, -1));
    assert!(accounts.debt_fits_check(3, 4, 10));
}

#[test]
fn test_split_fits_check_detects_overflow_mid_split() {
    let mut accounts = Accounts::new();
    accounts.apply_debt(1, 2, i64::MAX - 10);
    let fits: Vec<u64> = vec![3];
    let overflows: Vec<u64> = vec![3, 2];
    assert!(accounts.split_fits_check(1, 100, &fits));
    assert!(!accounts.split_fits_check(1, 100, &overflows));
}

#[test]
fn test_snapshot_and_restore() {
    let mut accounts = Accounts::new();
    accounts.apply_debt(1, 2, 500);
    let copy = accounts.snapshot();
    accounts.apply_debt(1, 2, 100);
    assert_eq!(accounts.get_bal(1, 2), 600);
    assert_eq!(copy.get_bal(1, 2), 500);
    accounts.restore(copy);
    assert_eq!(accounts.get_bal(1, 2), 500);
}

#[test]
fn test_get_balances_is_a_copy() {
    let mut accounts = Accounts::new();
    accounts.apply_debt(1, 2, 500);
    let balances = accounts.get_balances(2);
    accounts.apply_debt(1, 2, 100);
    assert_eq!(balances.get_or_zero(1), -500);
    assert_eq!(accounts.get_balances(2).get_or_zero(1), -600);
}

#[test]
fn test_get_balances_absent_identity_is_empty() {
    let accounts = Accounts::new();
    let balances = accounts.get_balances(42);
    assert_eq!(balances.len(), 0);
    assert_eq!(balances.get_or_zero(7), 0);
    assert!(!balances.has_key(7));
}

#[test]
fn test_self_debt_leaves_balances_unchanged() {
    let mut accounts = Accounts::new();
    accounts.apply_debt(5, 5, 900);
    assert_eq!(accounts.get_bal(5, 5), 0);
}
