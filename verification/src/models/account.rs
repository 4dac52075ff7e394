//! Account balances and the moves a single transaction makes on them.
//!
//! Amounts are fixed-point decimals held in an `i64`: one unit is one
//! ten-thousandth, so a decimal amount with four fractional digits is an
//! exact integer. The core invariant of an account is that `total` always
//! equals `available + held`.

use vstd::prelude::*;

verus! {

/// Represents an account id.
pub type AccountId = u16;

/// Represents a credit amount, in units of one ten-thousandth.
pub type CreditAmount = i64;

/// Why a transaction was rejected.
#[derive(Clone, Copy, Debug, PartialEq, Eq, Structural)]
pub enum ProcessError {
    /// The account is locked; every transaction on it is rejected.
    AccountLocked,
    /// A withdrawal asked for more than is available.
    InsufficientFunds,
    /// Applying the amount would take a balance outside the `i64` range.
    AmountOverflow,
}

/// The mathematical state of an account.
#[verifier::ext_equal]
pub ghost struct AccountView {
    pub id: AccountId,
    pub available: int,
    pub held: int,
    pub total: int,
    pub locked: bool,
}

impl AccountView {
    /// The fundamental balance equation: funds are either available or held.
    pub open spec fn balanced(self) -> bool {
        self.total == self.available + self.held
    }

    /// A freshly created account: zero balances, unlocked.
    pub open spec fn initial(id: AccountId) -> AccountView {
        AccountView { id: id, available: 0, held: 0, total: 0, locked: false }
    }
}

/// Represents a clients account.
#[derive(Clone, Copy, Debug)]
pub struct Account {
    id: AccountId,
    available: CreditAmount,
    held: CreditAmount,
    total: CreditAmount,
    locked: bool,
}

impl View for Account {
    type V = AccountView;

    closed spec fn view(&self) -> AccountView {
        AccountView {
            id: self.id,
            available: self.available as int,
            held: self.held as int,
            total: self.total as int,
            locked: self.locked,
        }
    }
}

impl Account {
    /// Initializes a new account with zero balances.
    pub fn new(id: AccountId) -> (r: Self)
        ensures
            r@ == AccountView::initial(id),
    {
        Self { id, available: 0, held: 0, total: 0, locked: false }
    }

    /// Returns the account id.
    pub fn id(&self) -> (r: AccountId)
        ensures
            r == self@.id,
    {
        self.id
    }

    /// Returns the available amount.
    pub fn available(&self) -> (r: CreditAmount)
        ensures
            r == self@.available,
    {
        self.available
    }

    /// Returns the held amount.
    pub fn held(&self) -> (r: CreditAmount)
        ensures
            r == self@.held,
    {
        self.held
    }

    /// Returns the total amount.
    pub fn total(&self) -> (r: CreditAmount)
        ensures
            r == self@.total,
    {
        self.total
    }

    /// Returns true if the account is locked.
    pub fn locked(&self) -> (r: bool)
        ensures
            r == self@.locked,
    {
        self.locked
    }

    /// Executes a deposit on the account.
    pub fn deposit(&mut self, amount: CreditAmount)
        requires
            0 <= amount,
            old(self)@.available + amount <= i64::MAX,
            old(self)@.total + amount <= i64::MAX,
        ensures
            final(self)@ == (AccountView {
                available: old(self)@.available + amount,
                total: old(self)@.total + amount,
                ..old(self)@
            }),
    {
        self.available = self.available + amount;
        self.total = self.total + amount;
    }

    /// Executes a withdrawal on the account. Fails without touching the
    /// balances when less than `amount` is available.
    pub fn withdrawal(&mut self, amount: CreditAmount) -> (r: Result<(), ProcessError>)
        requires
            0 <= amount,
            i64::MIN <= old(self)@.total - amount,
        ensures
            r is Ok <==> amount <= old(self)@.available,
            r is Err ==> *final(self) == *old(self) && r->Err_0 == ProcessError::InsufficientFunds,
            r is Ok ==> final(self)@ == (AccountView {
                available: old(self)@.available - amount,
                total: old(self)@.total - amount,
                ..old(self)@
            }),
    {
        if self.available < amount {
            return Err(ProcessError::InsufficientFunds);
        }
        self.available = self.available - amount;
        self.total = self.total - amount;
        Ok(())
    }

    /// Executes a dispute: the amount moves from available to held.
    pub fn dispute(&mut self, amount: CreditAmount)
        requires
            0 <= amount,
            i64::MIN <= old(self)@.available - amount,
            old(self)@.held + amount <= i64::MAX,
        ensures
            final(self)@ == (AccountView {
                available: old(self)@.available - amount,
                held: old(self)@.held + amount,
                ..old(self)@
            }),
    {
        self.available = self.available - amount;
        self.held = self.held + amount;
    }

    /// Executes a resolve: the disputed amount becomes available again.
    pub fn resolve(&mut self, amount: CreditAmount)
        requires
            0 <= amount,
            old(self)@.available + amount <= i64::MAX,
            i64::MIN <= old(self)@.held - amount,
        ensures
            final(self)@ == (AccountView {
                available: old(self)@.available + amount,
                held: old(self)@.held - amount,
                ..old(self)@
            }),
    {
        self.available = self.available + amount;
        self.held = self.held - amount;
    }

    /// Executes a chargeback: the disputed amount leaves the account and the
    /// account is locked for good.
    pub fn chargeback(&mut self, amount: CreditAmount)
        requires
            0 <= amount,
            i64::MIN <= old(self)@.held - amount,
            i64::MIN <= old(self)@.total - amount,
        ensures
            final(self)@ == (AccountView {
                held: old(self)@.held - amount,
                total: old(self)@.total - amount,
                locked: true,
                ..old(self)@
            }),
    {
        self.held = self.held - amount;
        self.total = self.total - amount;
        self.locked = true;
    }
}

} // verus!
