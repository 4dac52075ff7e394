//! The stores, the pending queue and the configuration helpers.

use athanasia::config::{initialize_config, Config};
use athanasia::models::account::Account;
use athanasia::models::dealer::{dealer_step, DealerAction};
use athanasia::models::storage::{AccountStorage, DisputeRegister, TransactionStorage};
use athanasia::models::transaction::{Transaction, TransactionType};
use athanasia::models::transaction_stream::TransactionStream;
use athanasia::Engine;

#[test]
fn account_storage_set_and_get() {
    let mut storage = AccountStorage::new();
    let a = Account::new(1);
    assert!(storage.set(a).is_ok());
    assert_eq!(storage.get(&1).available(), 0);
}

#[test]
fn account_storage_creates_on_first_get() {
    let mut storage = AccountStorage::new();
    let a = storage.get(&9);
    assert_eq!(a.id(), 9);
    assert_eq!(a.total(), 0);
    assert!(!a.locked());
    assert_eq!(storage.get_map().len(), 1);
}

#[test]
fn dispute_register_tracks_open_disputes() {
    let mut d = DisputeRegister::new();
    let id = 300;
    let id2 = 700;
    d.dispute(&id);
    d.dispute(&id2);
    assert_eq!(d.is_dispute(&id), true);
    d.resolve(&id);
    assert_eq!(d.is_dispute(&id), false);
    assert_eq!(d.is_dispute(&id2), true);
}

#[test]
fn dispute_register_is_a_set() {
    let mut d = DisputeRegister::new();
    d.dispute(&5);
    d.dispute(&5);
    d.resolve(&5);
    assert!(!d.is_dispute(&5));
}

#[test]
fn transaction_storage_keeps_the_original_entry() {
    let mut s = TransactionStorage::new();
    s.add(Transaction::new(TransactionType::Deposit, 1, 1, Some(5_000)));
    s.add(Transaction::new(TransactionType::Deposit, 2, 1, Some(9_000)));
    let t = s.get(&1).unwrap();
    assert_eq!(t.client(), 1);
    assert_eq!(t.amount(), Some(5_000));
    assert!(s.get(&2).is_none());
}

#[test]
fn stream_hands_transactions_out_in_arrival_order() {
    let mut stream = TransactionStream::new();
    assert!(stream.alive());
    assert!(stream.empty());
    stream.push(Transaction::new(TransactionType::Deposit, 1, 1, Some(1)));
    stream.push(Transaction::new(TransactionType::Deposit, 2, 2, Some(2)));
    assert!(!stream.empty());
    assert_eq!(stream.next().unwrap().tx(), 1);
    assert_eq!(stream.next().unwrap().tx(), 2);
    assert!(stream.next().is_none());
    stream.finish();
    assert!(!stream.alive());
}

#[test]
fn dealer_step_decides_by_stream_state() {
    let mut stream = TransactionStream::new();
    assert!(matches!(dealer_step(&mut stream), DealerAction::Idle));
    stream.push(Transaction::new(TransactionType::Deposit, 1, 1, Some(1)));
    match dealer_step(&mut stream) {
        DealerAction::Execute(t) => assert_eq!(t.tx(), 1),
        _ => panic!("a queued transaction must be handed out"),
    }
    stream.finish();
    assert!(matches!(dealer_step(&mut stream), DealerAction::Finished));
}

#[test]
fn engine_keeps_its_thread_count() {
    let engine = Engine::new(4);
    assert_eq!(engine.thread_count, 4);
}

#[test]
fn config_defaults_are_filled_in() {
    let c = initialize_config(Config {
        input_file: "transactions.csv".to_owned(),
        thread_count: None,
        log_level: None,
    });
    assert_eq!(c.input_file, "transactions.csv");
    assert_eq!(c.thread_count, Some(1));
    assert_eq!(c.log_level, Some("info".to_owned()));
}

#[test]
fn config_thread_count_is_clamped_to_eight() {
    let c = initialize_config(Config {
        input_file: "in.csv".to_owned(),
        thread_count: Some(250),
        log_level: Some("debug".to_owned()),
    });
    assert_eq!(c.thread_count, Some(8));
    assert_eq!(c.log_level, Some("debug".to_owned()));
}

#[test]
fn config_unknown_log_level_falls_back_to_info() {
    let c = initialize_config(Config {
        input_file: "in.csv".to_owned(),
        thread_count: Some(2),
        log_level: Some("loud".to_owned()),
    });
    assert_eq!(c.thread_count, Some(2));
    assert_eq!(c.log_level, Some("info".to_owned()));
}
