//! End-to-end ledger scenarios: amounts are in units of one ten-thousandth,
//! so 1.0 is written 10_000.

use athanasia::models::account::ProcessError;
use athanasia::models::parse::parse_record;
use athanasia::models::dealer::{dealer_step, DealerAction};
use athanasia::models::storage::Storage;
use athanasia::models::transaction::{Transaction, TransactionType};
use athanasia::models::transaction_stream::TransactionStream;

fn deposit(client: u16, tx: u32, amount: i64) -> Transaction {
    Transaction::new(TransactionType::Deposit, client, tx, Some(amount))
}

fn withdrawal(client: u16, tx: u32, amount: i64) -> Transaction {
    Transaction::new(TransactionType::Withdrawal, client, tx, Some(amount))
}

fn dispute(client: u16, tx: u32) -> Transaction {
    Transaction::new(TransactionType::Dispute, client, tx, None)
}

fn resolve(client: u16, tx: u32) -> Transaction {
    Transaction::new(TransactionType::Resolve, client, tx, None)
}

fn chargeback(client: u16, tx: u32) -> Transaction {
    Transaction::new(TransactionType::Chargeback, client, tx, None)
}

#[test]
fn deposit_then_withdrawal() {
    let mut s = Storage::new();
    assert!(s.process(deposit(1, 1, 10_000)).is_ok());
    assert!(s.process(withdrawal(1, 2, 5_000)).is_ok());
    let a = s.accounts.get(&1);
    assert_eq!(a.available(), 5_000);
    assert_eq!(a.held(), 0);
    assert_eq!(a.total(), 5_000);
    assert!(!a.locked());
}

#[test]
fn withdrawal_beyond_available_is_dropped() {
    let mut s = Storage::new();
    assert!(s.process(deposit(1, 1, 10_000)).is_ok());
    assert_eq!(
        s.process(withdrawal(1, 2, 50_000)),
        Err(ProcessError::InsufficientFunds)
    );
    let a = s.accounts.get(&1);
    assert_eq!(a.available(), 10_000);
    assert_eq!(a.total(), 10_000);
}

#[test]
fn dispute_holds_the_referenced_amount() {
    let mut s = Storage::new();
    assert!(s.process(deposit(1, 1, 10_000)).is_ok());
    assert!(s.process(dispute(1, 1)).is_ok());
    let a = s.accounts.get(&1);
    assert_eq!(a.available(), 0);
    assert_eq!(a.held(), 10_000);
    assert_eq!(a.total(), 10_000);
    assert!(!a.locked());
}

#[test]
fn resolve_releases_the_held_amount() {
    let mut s = Storage::new();
    assert!(s.process(deposit(1, 1, 10_000)).is_ok());
    assert!(s.process(dispute(1, 1)).is_ok());
    assert!(s.process(resolve(1, 1)).is_ok());
    let a = s.accounts.get(&1);
    assert_eq!(a.available(), 10_000);
    assert_eq!(a.held(), 0);
    assert_eq!(a.total(), 10_000);
    assert!(!a.locked());
}

#[test]
fn chargeback_reverses_and_locks() {
    let mut s = Storage::new();
    assert!(s.process(deposit(1, 1, 10_000)).is_ok());
    assert!(s.process(dispute(1, 1)).is_ok());
    assert!(s.process(chargeback(1, 1)).is_ok());
    {
        let a = s.accounts.get(&1);
        assert_eq!(a.available(), 0);
        assert_eq!(a.held(), 0);
        assert_eq!(a.total(), 0);
        assert!(a.locked());
    }
    assert_eq!(
        s.process(deposit(1, 3, 50_000)),
        Err(ProcessError::AccountLocked)
    );
    let a = s.accounts.get(&1);
    assert_eq!(a.available(), 0);
    assert_eq!(a.held(), 0);
    assert_eq!(a.total(), 0);
    assert!(a.locked());
}

#[test]
fn dispute_with_unknown_reference_is_ignored() {
    let mut s = Storage::new();
    assert!(s.process(deposit(1, 1, 10_000)).is_ok());
    assert!(s.process(dispute(1, 999)).is_ok());
    let a = s.accounts.get(&1);
    assert_eq!(a.available(), 10_000);
    assert_eq!(a.held(), 0);
    assert_eq!(a.total(), 10_000);
    assert!(!s.dispute_register.is_dispute(&999));
}

#[test]
fn resolve_without_open_dispute_is_ignored() {
    let mut s = Storage::new();
    assert!(s.process(deposit(1, 1, 10_000)).is_ok());
    assert!(s.process(resolve(1, 1)).is_ok());
    assert!(s.process(chargeback(1, 1)).is_ok());
    let a = s.accounts.get(&1);
    assert_eq!(a.available(), 10_000);
    assert_eq!(a.held(), 0);
    assert!(!a.locked());
}

#[test]
fn second_dispute_of_the_same_id_has_no_effect() {
    let mut s = Storage::new();
    assert!(s.process(deposit(1, 1, 10_000)).is_ok());
    assert!(s.process(dispute(1, 1)).is_ok());
    assert!(s.process(dispute(1, 1)).is_ok());
    let a = s.accounts.get(&1);
    assert_eq!(a.available(), 0);
    assert_eq!(a.held(), 10_000);
    assert_eq!(a.total(), 10_000);
}

#[test]
fn total_stays_available_plus_held() {
    let mut s = Storage::new();
    let steps = vec![
        deposit(1, 1, 30_000),
        withdrawal(1, 2, 5_000),
        dispute(1, 1),
        deposit(2, 3, 7_000),
        resolve(1, 1),
    ];
    for t in steps {
        let _ = s.process(t);
        for c in [1u16, 2u16] {
            let a = s.accounts.get(&c);
            assert_eq!(a.total(), a.available() + a.held());
        }
    }
}

#[test]
fn available_is_nonnegative_after_applied_withdrawal() {
    let mut s = Storage::new();
    assert!(s.process(deposit(1, 1, 10_000)).is_ok());
    assert!(s.process(withdrawal(1, 2, 10_000)).is_ok());
    let a = s.accounts.get(&1);
    assert!(a.available() >= 0);
    assert_eq!(a.available(), 0);
}

#[test]
fn dispute_registry_references_the_log_and_clears() {
    let mut s = Storage::new();
    assert!(s.process(deposit(1, 1, 10_000)).is_ok());
    assert!(s.process(dispute(1, 1)).is_ok());
    assert!(s.dispute_register.is_dispute(&1));
    assert!(s.transactions.get(&1).is_some());
    assert!(s.process(resolve(1, 1)).is_ok());
    assert!(!s.dispute_register.is_dispute(&1));
}

#[test]
fn deposit_overflow_is_dropped() {
    let mut s = Storage::new();
    assert!(s.process(deposit(1, 1, i64::MAX)).is_ok());
    assert_eq!(
        s.process(deposit(1, 2, 1)),
        Err(ProcessError::AmountOverflow)
    );
    let a = s.accounts.get(&1);
    assert_eq!(a.available(), i64::MAX);
}

#[test]
fn process_all_applies_in_order() {
    let mut s = Storage::new();
    let batch = vec![
        deposit(1, 1, 10_000),
        withdrawal(1, 2, 5_000),
        deposit(2, 3, 20_000),
        dispute(2, 3),
    ];
    s.process_all(&batch);
    let a1 = s.accounts.get(&1);
    assert_eq!(a1.available(), 5_000);
    let a2 = s.accounts.get(&2);
    assert_eq!(a2.available(), 0);
    assert_eq!(a2.held(), 20_000);
}

#[test]
fn dealers_drain_the_stream_to_the_same_result() {
    let mut stream = TransactionStream::new();
    stream.push(deposit(1, 1, 10_000));
    stream.push(withdrawal(1, 2, 5_000));
    stream.push(deposit(2, 3, 7_000));
    stream.finish();
    let mut s = Storage::new();
    loop {
        match dealer_step(&mut stream) {
            DealerAction::Finished => break,
            DealerAction::Idle => continue,
            DealerAction::Execute(t) => {
                let _ = s.process(t);
            }
        }
    }
    let a1 = s.accounts.get(&1);
    assert_eq!(a1.available(), 5_000);
    let a2 = s.accounts.get(&2);
    assert_eq!(a2.available(), 7_000);
}

#[test]
fn records_flow_from_text_to_ledger() {
    let lines: Vec<&[u8]> = vec![
        b"type,client,tx,amount",
        b"deposit,1,1,1.0",
        b"deposit,2,2,2.0",
        b"withdrawal,1,3,0.25",
        b"dispute,2,2,",
        b"chargeback,2,2",
        b"not a record at all",
    ];
    let mut batch = Vec::new();
    for line in lines {
        if let Ok(t) = parse_record(line) {
            batch.push(t);
        }
    }
    assert_eq!(batch.len(), 5);
    let mut s = Storage::new();
    s.process_all(&batch);
    let a1 = s.accounts.get(&1);
    assert_eq!(a1.available(), 7_500);
    assert!(!a1.locked());
    let a2 = s.accounts.get(&2);
    assert_eq!(a2.total(), 0);
    assert!(a2.locked());
}
