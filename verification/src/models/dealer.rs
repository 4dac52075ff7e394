//! The transaction processor: the state machine that applies one transaction
//! to the ledger, and the dealer's scheduling decision over the pending queue.
//!
//! The whole behaviour is pinned by the spec-level transition function
//! [`apply_transaction`] together with [`transaction_outcome`]; the exec
//! [`Storage::process`] is proved to implement exactly that transition.

use vstd::prelude::*;

use crate::models::account::{AccountId, AccountView, ProcessError};
use crate::models::storage::Storage;
use crate::models::transaction::{Transaction, TransactionId, TransactionType, TransactionView};
use crate::models::transaction_stream::TransactionStream;

verus! {

/// The whole ledger, mathematically: accounts by client id, the log of
/// applied deposits and withdrawals by transaction id, and the set of
/// transaction ids currently under dispute.
#[verifier::ext_equal]
pub ghost struct LedgerView {
    pub accounts: Map<AccountId, AccountView>,
    pub txlog: Map<TransactionId, TransactionView>,
    pub disputed: Set<TransactionId>,
}

/// The ledger invariant: every account is balanced and keyed by its own id,
/// the transaction log holds only well-formed deposits and withdrawals keyed
/// by their own id, and every disputed id references a logged transaction.
pub open spec fn ledger_inv(l: LedgerView) -> bool {
    &&& forall|c: AccountId| #[trigger]
        l.accounts.contains_key(c) ==> l.accounts[c].balanced() && l.accounts[c].id == c
    &&& forall|x: TransactionId| #[trigger]
        l.txlog.contains_key(x) ==> l.txlog[x].tx == x && (l.txlog[x].transaction_type
            is Deposit || l.txlog[x].transaction_type is Withdrawal) && l.txlog[x].wf()
    &&& forall|x: TransactionId| #[trigger] l.disputed.contains(x) ==> l.txlog.contains_key(x)
}

/// The account a transaction addresses: the stored one, or a fresh one with
/// zero balances on first reference.
pub open spec fn account_or_initial(l: LedgerView, c: AccountId) -> AccountView {
    if l.accounts.contains_key(c) {
        l.accounts[c]
    } else {
        AccountView::initial(c)
    }
}

/// The ledger after the addressed account was resolved (and created on first
/// sight), with nothing else applied.
pub open spec fn touch_account(l: LedgerView, c: AccountId) -> LedgerView {
    LedgerView { accounts: l.accounts.insert(c, account_or_initial(l, c)), ..l }
}

/// The log after an applied deposit or withdrawal was stored: a transaction
/// id already present keeps its originally applied entry.
pub open spec fn log_insert(
    m: Map<TransactionId, TransactionView>,
    t: TransactionView,
) -> Map<TransactionId, TransactionView> {
    if m.contains_key(t.tx) {
        m
    } else {
        m.insert(t.tx, t)
    }
}

/// Whether a deposit of `amt` keeps the balances within `CreditAmount`.
pub open spec fn deposit_fits(a: AccountView, amt: int) -> bool {
    a.available + amt <= i64::MAX && a.total + amt <= i64::MAX
}

/// Whether a withdrawal of `amt` keeps the balances within `CreditAmount`.
pub open spec fn withdrawal_fits(a: AccountView, amt: int) -> bool {
    i64::MIN <= a.total - amt
}

/// Whether a dispute over `amt` keeps the balances within `CreditAmount`.
pub open spec fn dispute_fits(a: AccountView, amt: int) -> bool {
    i64::MIN <= a.available - amt && a.held + amt <= i64::MAX
}

/// Whether a resolve over `amt` keeps the balances within `CreditAmount`.
pub open spec fn resolve_fits(a: AccountView, amt: int) -> bool {
    a.available + amt <= i64::MAX && i64::MIN <= a.held - amt
}

/// Whether a chargeback over `amt` keeps the balances within `CreditAmount`.
pub open spec fn chargeback_fits(a: AccountView, amt: int) -> bool {
    i64::MIN <= a.held - amt && i64::MIN <= a.total - amt
}

/// The account after a deposit.
pub open spec fn account_deposited(a: AccountView, amt: int) -> AccountView {
    AccountView { available: a.available + amt, total: a.total + amt, ..a }
}

/// The account after a withdrawal.
pub open spec fn account_withdrawn(a: AccountView, amt: int) -> AccountView {
    AccountView { available: a.available - amt, total: a.total - amt, ..a }
}

/// The account after a dispute: the amount moves from available to held.
pub open spec fn account_disputed(a: AccountView, amt: int) -> AccountView {
    AccountView { available: a.available - amt, held: a.held + amt, ..a }
}

/// The account after a resolve: the held amount becomes available again.
pub open spec fn account_resolved(a: AccountView, amt: int) -> AccountView {
    AccountView { available: a.available + amt, held: a.held - amt, ..a }
}

/// The account after a chargeback: the held amount leaves, the account locks.
pub open spec fn account_charged_back(a: AccountView, amt: int) -> AccountView {
    AccountView { held: a.held - amt, total: a.total - amt, locked: true, ..a }
}

/// The ledger after one transaction. The addressed account is created on
/// first sight; a locked account rejects everything; a withdrawal needs
/// sufficient available funds; a dispute needs a logged reference that is not
/// already under dispute; a resolve or chargeback needs a logged reference
/// currently under dispute; and any move that would leave `CreditAmount` is
/// dropped. A dropped transaction changes no balance.
pub open spec fn apply_transaction(l: LedgerView, t: TransactionView) -> LedgerView {
    let acc = account_or_initial(l, t.client);
    let rest = touch_account(l, t.client);
    if acc.locked {
        rest
    } else {
        match t.transaction_type {
            TransactionType::Deposit => {
                let amt = t.amount_of();
                if deposit_fits(acc, amt) {
                    LedgerView {
                        accounts: l.accounts.insert(t.client, account_deposited(acc, amt)),
                        txlog: log_insert(l.txlog, t),
                        ..l
                    }
                } else {
                    rest
                }
            },
            TransactionType::Withdrawal => {
                let amt = t.amount_of();
                if acc.available < amt {
                    rest
                } else if withdrawal_fits(acc, amt) {
                    LedgerView {
                        accounts: l.accounts.insert(t.client, account_withdrawn(acc, amt)),
                        txlog: log_insert(l.txlog, t),
                        ..l
                    }
                } else {
                    rest
                }
            },
            TransactionType::Dispute => {
                if !l.txlog.contains_key(t.tx) || l.disputed.contains(t.tx) {
                    rest
                } else {
                    let amt = l.txlog[t.tx].amount_of();
                    if dispute_fits(acc, amt) {
                        LedgerView {
                            accounts: l.accounts.insert(t.client, account_disputed(acc, amt)),
                            disputed: l.disputed.insert(t.tx),
                            ..l
                        }
                    } else {
                        rest
                    }
                }
            },
            TransactionType::Resolve => {
                if !l.txlog.contains_key(t.tx) || !l.disputed.contains(t.tx) {
                    rest
                } else {
                    let amt = l.txlog[t.tx].amount_of();
                    if resolve_fits(acc, amt) {
                        LedgerView {
                            accounts: l.accounts.insert(t.client, account_resolved(acc, amt)),
                            disputed: l.disputed.remove(t.tx),
                            ..l
                        }
                    } else {
                        rest
                    }
                }
            },
            TransactionType::Chargeback => {
                if !l.txlog.contains_key(t.tx) || !l.disputed.contains(t.tx) {
                    rest
                } else {
                    let amt = l.txlog[t.tx].amount_of();
                    if chargeback_fits(acc, amt) {
                        LedgerView {
                            accounts: l.accounts.insert(t.client, account_charged_back(acc, amt)),
                            disputed: l.disputed.remove(t.tx),
                            ..l
                        }
                    } else {
                        rest
                    }
                }
            },
        }
    }
}

/// What processing one transaction reports. Rejections on a locked account
/// and failed withdrawals are errors; a dispute instruction whose reference
/// is missing or whose dispute state does not fit is silently ignored.
pub open spec fn transaction_outcome(l: LedgerView, t: TransactionView) -> Result<
    (),
    ProcessError,
> {
    let acc = account_or_initial(l, t.client);
    if acc.locked {
        Err(ProcessError::AccountLocked)
    } else {
        match t.transaction_type {
            TransactionType::Deposit => {
                if deposit_fits(acc, t.amount_of()) {
                    Ok(())
                } else {
                    Err(ProcessError::AmountOverflow)
                }
            },
            TransactionType::Withdrawal => {
                if acc.available < t.amount_of() {
                    Err(ProcessError::InsufficientFunds)
                } else if withdrawal_fits(acc, t.amount_of()) {
                    Ok(())
                } else {
                    Err(ProcessError::AmountOverflow)
                }
            },
            TransactionType::Dispute => {
                if !l.txlog.contains_key(t.tx) || l.disputed.contains(t.tx) {
                    Ok(())
                } else if dispute_fits(acc, l.txlog[t.tx].amount_of()) {
                    Ok(())
                } else {
                    Err(ProcessError::AmountOverflow)
                }
            },
            TransactionType::Resolve => {
                if !l.txlog.contains_key(t.tx) || !l.disputed.contains(t.tx) {
                    Ok(())
                } else if resolve_fits(acc, l.txlog[t.tx].amount_of()) {
                    Ok(())
                } else {
                    Err(ProcessError::AmountOverflow)
                }
            },
            TransactionType::Chargeback => {
                if !l.txlog.contains_key(t.tx) || !l.disputed.contains(t.tx) {
                    Ok(())
                } else if chargeback_fits(acc, l.txlog[t.tx].amount_of()) {
                    Ok(())
                } else {
                    Err(ProcessError::AmountOverflow)
                }
            },
        }
    }
}

/// The ledger after a whole batch, applied front to back.
pub open spec fn apply_all(l: LedgerView, ts: Seq<TransactionView>) -> LedgerView
    decreases ts.len(),
{
    if ts.len() == 0 {
        l
    } else {
        apply_transaction(apply_all(l, ts.drop_last()), ts.last())
    }
}

/// Law: one transaction keeps the ledger invariant — in particular, every
/// account still satisfies `total == available + held`, and every disputed id
/// still references a logged deposit or withdrawal.
pub proof fn lemma_apply_preserves_inv(l: LedgerView, t: TransactionView)
    requires
        ledger_inv(l),
        t.wf(),
    ensures
        ledger_inv(apply_transaction(l, t)),
{
    let r = apply_transaction(l, t);
    let acc = account_or_initial(l, t.client);
    assert(acc.balanced() && acc.id == t.client);
    assert forall|c: AccountId| #[trigger]
        r.accounts.contains_key(c) implies r.accounts[c].balanced() && r.accounts[c].id == c by {
        if c != t.client {
            assert(l.accounts.contains_key(c));
        }
    }
    assert forall|x: TransactionId| #[trigger]
        r.txlog.contains_key(x) implies r.txlog[x].tx == x && (r.txlog[x].transaction_type
        is Deposit || r.txlog[x].transaction_type is Withdrawal) && r.txlog[x].wf() by {
        if l.txlog.contains_key(x) {
            assert(r.txlog[x] == l.txlog[x]);
        } else {
            assert(x == t.tx && r.txlog[x] == t);
        }
    }
    assert forall|x: TransactionId| #[trigger]
        r.disputed.contains(x) implies r.txlog.contains_key(x) by {
        if l.disputed.contains(x) {
            assert(l.txlog.contains_key(x));
        } else {
            assert(x == t.tx);
        }
    }
}

/// Law: a whole batch keeps the ledger invariant, so every account stays
/// balanced at all times, after every applied transaction.
pub proof fn lemma_apply_all_preserves_inv(l: LedgerView, ts: Seq<TransactionView>)
    requires
        ledger_inv(l),
        forall|i: int| 0 <= i < ts.len() ==> (#[trigger] ts[i]).wf(),
    ensures
        ledger_inv(apply_all(l, ts)),
    decreases ts.len(),
{
    if ts.len() > 0 {
        assert(forall|i: int|
            0 <= i < ts.drop_last().len() ==> (#[trigger] ts.drop_last()[i]).wf());
        lemma_apply_all_preserves_inv(l, ts.drop_last());
        assert(ts[ts.len() - 1].wf());
        lemma_apply_preserves_inv(apply_all(l, ts.drop_last()), ts.last());
    }
}

/// Law: right after a successfully applied withdrawal the account's
/// available amount is non-negative.
pub proof fn lemma_withdrawal_leaves_available_nonnegative(l: LedgerView, t: TransactionView)
    requires
        t.wf(),
        t.transaction_type is Withdrawal,
        transaction_outcome(l, t) is Ok,
    ensures
        apply_transaction(l, t).accounts[t.client].available >= 0,
{
}

/// Law: a locked account is frozen for good. No transaction — whatever its
/// type, client or reference — changes that account's balances or unlocks
/// it, and one addressed to it is rejected as `AccountLocked`.
pub proof fn lemma_locked_account_is_frozen(l: LedgerView, t: TransactionView, c: AccountId)
    requires
        l.accounts.contains_key(c),
        l.accounts[c].locked,
    ensures
        apply_transaction(l, t).accounts.contains_key(c),
        apply_transaction(l, t).accounts[c] == l.accounts[c],
        t.client == c ==> transaction_outcome(l, t) == Err::<(), ProcessError>(
            ProcessError::AccountLocked,
        ),
{
}

/// Law: a resolve or chargeback that actually applies removes its
/// transaction id from the dispute register.
pub proof fn lemma_settlement_clears_dispute(l: LedgerView, t: TransactionView)
    requires
        t.transaction_type is Resolve || t.transaction_type is Chargeback,
        !account_or_initial(l, t.client).locked,
        l.txlog.contains_key(t.tx),
        l.disputed.contains(t.tx),
        t.transaction_type is Resolve ==> resolve_fits(
            account_or_initial(l, t.client),
            l.txlog[t.tx].amount_of(),
        ),
        t.transaction_type is Chargeback ==> chargeback_fits(
            account_or_initial(l, t.client),
            l.txlog[t.tx].amount_of(),
        ),
    ensures
        !apply_transaction(l, t).disputed.contains(t.tx),
{
}

impl Storage {
    /// The mathematical content of the whole storage.
    pub open spec fn ledger(&self) -> LedgerView {
        LedgerView {
            accounts: self.accounts@,
            txlog: self.transactions@,
            disputed: self.dispute_register@,
        }
    }

    /// Well-formed storage: unique keys in every store, and the ledger
    /// invariant.
    pub open spec fn inv(&self) -> bool {
        &&& self.accounts.wf()
        &&& self.transactions.wf()
        &&& self.dispute_register.wf()
        &&& ledger_inv(self.ledger())
    }

    /// Executes the given transaction on the ledger: exactly the transition
    /// [`apply_transaction`], reporting [`transaction_outcome`]. If the
    /// addressed account is locked, the transaction is ignored.
    pub fn process(&mut self, transaction: Transaction) -> (r: Result<(), ProcessError>)
        requires
            old(self).inv(),
            transaction@.wf(),
        ensures
            final(self).inv(),
            final(self).ledger() == apply_transaction(old(self).ledger(), transaction@),
            r == transaction_outcome(old(self).ledger(), transaction@),
    {
        let ghost l0 = old(self).ledger();
        let ghost tv = transaction@;
        proof {
            lemma_apply_preserves_inv(l0, tv);
        }
        let client = transaction.client();
        let mut acc = self.accounts.get(&client);
        proof {
            assert(acc@ == account_or_initial(l0, tv.client));
            assert(self.ledger() =~= touch_account(l0, tv.client));
        }

        if acc.locked() {
            return Err(ProcessError::AccountLocked);
        }

        match *transaction.transaction_type() {
            TransactionType::Deposit => {
                let amount = transaction.amount().unwrap();
                if acc.available() > i64::MAX - amount || acc.total() > i64::MAX - amount {
                    return Err(ProcessError::AmountOverflow);
                }
                acc.deposit(amount);
                let _ = self.accounts.set(acc);
                self.transactions.add(transaction);
                proof {
                    assert(self.ledger() =~= apply_transaction(l0, tv));
                }
                Ok(())
            },
            TransactionType::Withdrawal => {
                let amount = transaction.amount().unwrap();
                if acc.available() < amount {
                    return Err(ProcessError::InsufficientFunds);
                }
                if acc.total() < i64::MIN + amount {
                    return Err(ProcessError::AmountOverflow);
                }
                let applied = acc.withdrawal(amount);
                proof {
                    assert(applied is Ok);
                }
                let _ = self.accounts.set(acc);
                self.transactions.add(transaction);
                proof {
                    assert(self.ledger() =~= apply_transaction(l0, tv));
                }
                Ok(())
            },
            TransactionType::Dispute => {
                let tx = transaction.tx();
                match self.transactions.get(&tx) {
                    None => Ok(()),
                    Some(found) => {
                        let referenced = *found;
                        proof {
                            assert(referenced@ == l0.txlog[tv.tx]);
                            assert(l0.txlog[tv.tx].wf());
                        }
                        let amount = referenced.amount().unwrap();
                        if self.dispute_register.is_dispute(&tx) {
                            return Ok(());
                        }
                        if acc.available() < i64::MIN + amount || acc.held() > i64::MAX - amount {
                            return Err(ProcessError::AmountOverflow);
                        }
                        self.dispute_register.dispute(&tx);
                        acc.dispute(amount);
                        let _ = self.accounts.set(acc);
                        proof {
                            assert(self.ledger() =~= apply_transaction(l0, tv));
                        }
                        Ok(())
                    },
                }
            },
            TransactionType::Resolve => {
                let tx = transaction.tx();
                match self.transactions.get(&tx) {
                    None => Ok(()),
                    Some(found) => {
                        let referenced = *found;
                        proof {
                            assert(referenced@ == l0.txlog[tv.tx]);
                            assert(l0.txlog[tv.tx].wf());
                        }
                        let amount = referenced.amount().unwrap();
                        if !self.dispute_register.is_dispute(&tx) {
                            return Ok(());
                        }
                        if acc.available() > i64::MAX - amount || acc.held() < i64::MIN + amount {
                            return Err(ProcessError::AmountOverflow);
                        }
                        acc.resolve(amount);
                        let _ = self.accounts.set(acc);
                        self.dispute_register.resolve(&tx);
                        proof {
                            assert(self.ledger() =~= apply_transaction(l0, tv));
                        }
                        Ok(())
                    },
                }
            },
            TransactionType::Chargeback => {
                let tx = transaction.tx();
                match self.transactions.get(&tx) {
                    None => Ok(()),
                    Some(found) => {
                        let referenced = *found;
                        proof {
                            assert(referenced@ == l0.txlog[tv.tx]);
                            assert(l0.txlog[tv.tx].wf());
                        }
                        let amount = referenced.amount().unwrap();
                        if !self.dispute_register.is_dispute(&tx) {
                            return Ok(());
                        }
                        if acc.held() < i64::MIN + amount || acc.total() < i64::MIN + amount {
                            return Err(ProcessError::AmountOverflow);
                        }
                        acc.chargeback(amount);
                        let _ = self.accounts.set(acc);
                        self.dispute_register.resolve(&tx);
                        proof {
                            assert(self.ledger() =~= apply_transaction(l0, tv));
                        }
                        Ok(())
                    },
                }
            },
        }
    }

    /// Applies a whole batch of transactions in arrival order. Rejected ones
    /// are dropped; processing never stops on their account.
    pub fn process_all(&mut self, transactions: &Vec<Transaction>)
        requires
            old(self).inv(),
            forall|i: int|
                0 <= i < transactions@.len() ==> (#[trigger] transactions@[i])@.wf(),
        ensures
            final(self).inv(),
            final(self).ledger() == apply_all(
                old(self).ledger(),
                transactions@.map_values(|t: Transaction| t@),
            ),
    {
        let ghost l0 = old(self).ledger();
        let ghost tvs = transactions@.map_values(|t: Transaction| t@);
        proof {
            assert(tvs.take(0) =~= Seq::<TransactionView>::empty());
        }
        let n = transactions.len();
        let mut i: usize = 0;
        while i < n
            invariant
                i <= n,
                n == transactions@.len(),
                tvs == transactions@.map_values(|t: Transaction| t@),
                forall|k: int| 0 <= k < transactions@.len() ==> (#[trigger] transactions@[k])@.wf(),
                self.inv(),
                self.ledger() == apply_all(l0, tvs.take(i as int)),
            decreases n - i,
        {
            let t = transactions[i];
            let _ = self.process(t);
            proof {
                assert(tvs.take(i as int + 1).drop_last() =~= tvs.take(i as int));
                assert(tvs.take(i as int + 1).last() == t@);
            }
            i = i + 1;
        }
        proof {
            assert(tvs.take(n as int) =~= tvs);
        }
    }
}

/// What a dealer decided to do after one look at the pending queue.
pub enum DealerAction {
    /// The producer has finished and nothing is queued: stop working.
    Finished,
    /// Nothing is queued right now but more may still arrive: back off
    /// briefly and look again.
    Idle,
    /// One transaction was taken off the queue: process it.
    Execute(Transaction),
}

/// One scheduling decision of a dealer: stop once the stream is finished and
/// drained, otherwise take the oldest queued transaction, or report that
/// nothing is available right now.
pub fn dealer_step(stream: &mut TransactionStream) -> (r: DealerAction)
    ensures
        final(stream).is_alive() == old(stream).is_alive(),
        r is Finished <==> !old(stream).is_alive() && old(stream).queue().len() == 0,
        r is Idle <==> old(stream).is_alive() && old(stream).queue().len() == 0,
        (r is Finished || r is Idle) ==> final(stream).queue() == old(stream).queue(),
        r matches DealerAction::Execute(t) ==> old(stream).queue().len() > 0 && t@ == old(
            stream,
        ).queue()[0] && final(stream).queue() == old(stream).queue().drop_first(),
{
    if !stream.alive() && stream.empty() {
        return DealerAction::Finished;
    }
    match stream.next() {
        None => DealerAction::Idle,
        Some(t) => DealerAction::Execute(t),
    }
}

} // verus!
