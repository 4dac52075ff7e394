//! The transaction record: an immutable instruction against one account.

use vstd::prelude::*;

use crate::models::account::{AccountId, CreditAmount};

verus! {

/// Defines a transaction id.
pub type TransactionId = u32;

/// Abstraction for a list of transactions.
pub type TransactionQueue = Vec<Transaction>;

/// Defines the type of a transaction.
#[derive(Clone, Copy, Debug, PartialEq, Eq, Structural)]
pub enum TransactionType {
    /// Adds credit to the clients account.
    Deposit,
    /// Withdraws a debit from the clients account.
    Withdrawal,
    /// Claim for an erroneous transaction.
    Dispute,
    /// Resolution to a dispute.
    Resolve,
    /// Final state of a dispute, reversing a transaction.
    Chargeback,
}

/// The mathematical content of a transaction.
#[verifier::ext_equal]
pub ghost struct TransactionView {
    pub transaction_type: TransactionType,
    pub client: AccountId,
    pub tx: TransactionId,
    pub amount: Option<int>,
}

impl TransactionView {
    /// Well-formed per the record schema: a deposit or withdrawal carries a
    /// non-negative amount that a `CreditAmount` can hold; the dispute
    /// instructions carry none and reference a prior transaction instead.
    pub open spec fn wf(self) -> bool {
        match self.transaction_type {
            TransactionType::Deposit | TransactionType::Withdrawal => {
                &&& self.amount is Some
                &&& 0 <= self.amount->0 <= i64::MAX
            },
            _ => self.amount is None,
        }
    }

    /// The amount a deposit or withdrawal carries.
    pub open spec fn amount_of(self) -> int {
        self.amount->0
    }
}

/// Defines a transaction.
/// Must not change after its creation, so all fields are private.
#[derive(Clone, Copy, Debug)]
pub struct Transaction {
    transaction_type: TransactionType,
    client: AccountId,
    tx: TransactionId,
    amount: Option<CreditAmount>,
}

impl View for Transaction {
    type V = TransactionView;

    closed spec fn view(&self) -> TransactionView {
        TransactionView {
            transaction_type: self.transaction_type,
            client: self.client,
            tx: self.tx,
            amount: match self.amount {
                Some(a) => Some(a as int),
                None => None,
            },
        }
    }
}

impl Transaction {
    /// Creates a new transaction.
    pub fn new(
        transaction_type: TransactionType,
        client: AccountId,
        tx: TransactionId,
        amount: Option<CreditAmount>,
    ) -> (r: Self)
        ensures
            r@ == (TransactionView {
                transaction_type,
                client,
                tx,
                amount: match amount {
                    Some(a) => Some(a as int),
                    None => None::<int>,
                },
            }),
    {
        Self { transaction_type, client, tx, amount }
    }

    /// Returns the transaction type.
    pub fn transaction_type(&self) -> (r: &TransactionType)
        ensures
            *r == self@.transaction_type,
    {
        &self.transaction_type
    }

    /// Returns the client id.
    pub fn client(&self) -> (r: AccountId)
        ensures
            r == self@.client,
    {
        self.client
    }

    /// Returns the transaction id.
    pub fn tx(&self) -> (r: TransactionId)
        ensures
            r == self@.tx,
    {
        self.tx
    }

    /// Returns the amount.
    pub fn amount(&self) -> (r: Option<CreditAmount>)
        ensures
            r is Some <==> self@.amount is Some,
            r is Some ==> r->0 == self@.amount->0,
    {
        self.amount
    }

    /// Decides whether the record is well-formed: a runtime check for
    /// [`TransactionView::wf`].
    pub fn well_formed(&self) -> (b: bool)
        ensures
            b == self@.wf(),
    {
        match self.transaction_type {
            TransactionType::Deposit | TransactionType::Withdrawal => {
                match self.amount {
                    Some(a) => a >= 0,
                    None => false,
                }
            },
            _ => self.amount.is_none(),
        }
    }
}

} // verus!
