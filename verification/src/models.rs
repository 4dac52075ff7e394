//! Home of all transaction related implementations.

/// Account balances and the moves a transaction makes on them.
pub mod account;

/// Transaction record and its well-formedness.
pub mod transaction;

/// Storage for accounts, applied transactions and open disputes.
pub mod storage;

/// The pending queue of parsed transactions.
pub mod transaction_stream;

/// The transaction processor and the ledger state machine.
pub mod dealer;

/// Parsing of input records and formatting of amounts.
pub mod parse;
