//! A small transaction-processing ledger: deposits, withdrawals and the
//! dispute lifecycle (dispute, resolve, chargeback) applied to per-client
//! accounts, with the financial invariants stated and proved.

pub mod models;

pub mod engine;

pub mod config;

pub use engine::Engine;
