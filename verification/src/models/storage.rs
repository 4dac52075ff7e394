//! Storage model that holds accounts, applied transactions and the set of
//! transaction ids under dispute.
//!
//! Each store is a vector with unique keys; its mathematical content is the
//! map (or set) it describes, and every operation is specified against that
//! content.

use vstd::prelude::*;

use crate::models::account::{Account, AccountId, AccountView};
use crate::models::transaction::{Transaction, TransactionId, TransactionView};

verus! {

/// The map described by a sequence of accounts, keyed by account id.
pub open spec fn accounts_as_map(s: Seq<Account>) -> Map<AccountId, AccountView>
    decreases s.len(),
{
    if s.len() == 0 {
        Map::empty()
    } else {
        accounts_as_map(s.drop_last()).insert(s.last()@.id, s.last()@)
    }
}

/// No two accounts of the sequence share an id.
pub open spec fn unique_account_ids(s: Seq<Account>) -> bool {
    forall|i: int, j: int|
        0 <= i < j < s.len() ==> (#[trigger] s[i])@.id != (#[trigger] s[j])@.id
}

pub proof fn lemma_accounts_map_contains(s: Seq<Account>, c: AccountId)
    ensures
        accounts_as_map(s).contains_key(c) <==> (exists|i: int|
            0 <= i < s.len() && (#[trigger] s[i])@.id == c),
    decreases s.len(),
{
    if s.len() > 0 {
        lemma_accounts_map_contains(s.drop_last(), c);
        if accounts_as_map(s).contains_key(c) {
            if s.last()@.id == c {
                assert(s[s.len() - 1]@.id == c);
            } else {
                let i = choose|i: int|
                    0 <= i < s.drop_last().len() && (#[trigger] s.drop_last()[i])@.id == c;
                assert(s[i]@.id == c);
            }
        }
        if exists|i: int| 0 <= i < s.len() && (#[trigger] s[i])@.id == c {
            let i = choose|i: int| 0 <= i < s.len() && (#[trigger] s[i])@.id == c;
            if i < s.len() - 1 {
                assert(s.drop_last()[i]@.id == c);
            }
        }
    }
}

pub proof fn lemma_accounts_map_index(s: Seq<Account>, i: int)
    requires
        unique_account_ids(s),
        0 <= i < s.len(),
    ensures
        accounts_as_map(s).contains_key(s[i]@.id),
        accounts_as_map(s)[s[i]@.id] == s[i]@,
    decreases s.len(),
{
    if i < s.len() - 1 {
        assert(unique_account_ids(s.drop_last()));
        lemma_accounts_map_index(s.drop_last(), i);
        assert(s.drop_last()[i] == s[i]);
        assert(s[i]@.id != s.last()@.id);
    }
}

pub proof fn lemma_accounts_map_push(s: Seq<Account>, a: Account)
    ensures
        accounts_as_map(s.push(a)) == accounts_as_map(s).insert(a@.id, a@),
{
    assert(s.push(a).drop_last() =~= s);
    assert(s.push(a).last() == a);
}

pub proof fn lemma_accounts_map_update(s: Seq<Account>, i: int, a: Account)
    requires
        unique_account_ids(s),
        0 <= i < s.len(),
        a@.id == s[i]@.id,
    ensures
        accounts_as_map(s.update(i, a)) == accounts_as_map(s).insert(a@.id, a@),
        unique_account_ids(s.update(i, a)),
    decreases s.len(),
{
    let su = s.update(i, a);
    if i == s.len() - 1 {
        assert(su.drop_last() =~= s.drop_last());
        assert(su.last() == a);
        assert(accounts_as_map(s).insert(a@.id, a@) =~= accounts_as_map(s.drop_last()).insert(
            a@.id,
            a@,
        ));
    } else {
        assert(unique_account_ids(s.drop_last()));
        lemma_accounts_map_update(s.drop_last(), i, a);
        assert(su.drop_last() =~= s.drop_last().update(i, a));
        assert(su.last() == s.last());
        assert(s[i]@.id != s.last()@.id);
        assert(accounts_as_map(s.drop_last()).insert(a@.id, a@).insert(s.last()@.id, s.last()@)
            =~= accounts_as_map(s.drop_last()).insert(s.last()@.id, s.last()@).insert(a@.id, a@));
    }
}

/// Contains all accounts.
pub struct AccountStorage(pub Vec<Account>);

impl View for AccountStorage {
    type V = Map<AccountId, AccountView>;

    open spec fn view(&self) -> Map<AccountId, AccountView> {
        accounts_as_map(self.0@)
    }
}

impl AccountStorage {
    /// The store keys its accounts by id, one entry per id.
    pub open spec fn wf(&self) -> bool {
        unique_account_ids(self.0@)
    }

    /// Creates a new account storage instance.
    pub fn new() -> (r: Self)
        ensures
            r.wf(),
            r@ == Map::<AccountId, AccountView>::empty(),
            r.0@ =~= Seq::<Account>::empty(),
    {
        AccountStorage(Vec::new())
    }

    fn find(&self, id: AccountId) -> (r: Option<usize>)
        ensures
            match r {
                Some(i) => i < self.0@.len() && self.0@[i as int]@.id == id,
                None => forall|k: int| 0 <= k < self.0@.len() ==> (#[trigger] self.0@[k])@.id != id,
            },
    {
        let n = self.0.len();
        let mut i: usize = 0;
        while i < n
            invariant
                i <= n,
                n == self.0@.len(),
                forall|k: int| 0 <= k < i ==> (#[trigger] self.0@[k])@.id != id,
            decreases n - i,
        {
            if self.0[i].id() == id {
                return Some(i);
            }
            i = i + 1;
        }
        None
    }

    /// Returns the stored account for the given id, creating one with zero
    /// balances on first reference.
    pub fn get(&mut self, id: &AccountId) -> (r: Account)
        requires
            old(self).wf(),
        ensures
            final(self).wf(),
            r@.id == *id,
            final(self)@ == old(self)@.insert(*id, r@),
            final(self)@.contains_key(*id),
            old(self)@.contains_key(*id) ==> r@ == old(self)@[*id] && *final(self) == *old(self),
            !old(self)@.contains_key(*id) ==> r@ == AccountView::initial(*id),
    {
        proof {
            lemma_accounts_map_contains(self.0@, *id);
        }
        match self.find(*id) {
            Some(i) => {
                proof {
                    lemma_accounts_map_index(self.0@, i as int);
                    assert(old(self)@.insert(*id, self.0@[i as int]@) =~= old(self)@);
                }
                self.0[i]
            },
            None => {
                let a = Account::new(*id);
                proof {
                    lemma_accounts_map_push(self.0@, a);
                }
                self.0.push(a);
                proof {
                    assert forall|x: int, y: int|
                        0 <= x < y < self.0@.len() implies (#[trigger] self.0@[x])@.id != (
                    #[trigger] self.0@[y])@.id by {
                        if y == self.0@.len() - 1 {
                            assert(old(self).0@[x]@.id != *id);
                        }
                    }
                }
                a
            },
        }
    }

    /// Updates the storage by the given account, or creates a new entry if
    /// none holds its id yet. Always succeeds.
    pub fn set(&mut self, account: Account) -> (r: Result<(), Account>)
        requires
            old(self).wf(),
        ensures
            final(self).wf(),
            r is Ok,
            final(self)@ == old(self)@.insert(account@.id, account@),
    {
        match self.find(account.id()) {
            Some(i) => {
                proof {
                    lemma_accounts_map_update(self.0@, i as int, account);
                }
                self.0[i] = account;
            },
            None => {
                proof {
                    lemma_accounts_map_push(self.0@, account);
                }
                self.0.push(account);
                proof {
                    assert forall|x: int, y: int|
                        0 <= x < y < self.0@.len() implies (#[trigger] self.0@[x])@.id != (
                    #[trigger] self.0@[y])@.id by {
                        if y == self.0@.len() - 1 {
                            assert(old(self).0@[x]@.id != account@.id);
                        }
                    }
                }
            },
        }
        Ok(())
    }

    /// Returns the stored accounts, for the final report.
    pub fn get_map(&self) -> (r: &Vec<Account>)
        ensures
            r@ == self.0@,
            accounts_as_map(r@) == self@,
    {
        &self.0
    }
}

/// The map described by a sequence of transactions, keyed by transaction id.
pub open spec fn txs_as_map(s: Seq<Transaction>) -> Map<TransactionId, TransactionView>
    decreases s.len(),
{
    if s.len() == 0 {
        Map::empty()
    } else {
        txs_as_map(s.drop_last()).insert(s.last()@.tx, s.last()@)
    }
}

/// No two transactions of the sequence share a transaction id.
pub open spec fn unique_tx_ids(s: Seq<Transaction>) -> bool {
    forall|i: int, j: int|
        0 <= i < j < s.len() ==> (#[trigger] s[i])@.tx != (#[trigger] s[j])@.tx
}

pub proof fn lemma_txs_map_contains(s: Seq<Transaction>, x: TransactionId)
    ensures
        txs_as_map(s).contains_key(x) <==> (exists|i: int|
            0 <= i < s.len() && (#[trigger] s[i])@.tx == x),
    decreases s.len(),
{
    if s.len() > 0 {
        lemma_txs_map_contains(s.drop_last(), x);
        if txs_as_map(s).contains_key(x) {
            if s.last()@.tx == x {
                assert(s[s.len() - 1]@.tx == x);
            } else {
                let i = choose|i: int|
                    0 <= i < s.drop_last().len() && (#[trigger] s.drop_last()[i])@.tx == x;
                assert(s[i]@.tx == x);
            }
        }
        if exists|i: int| 0 <= i < s.len() && (#[trigger] s[i])@.tx == x {
            let i = choose|i: int| 0 <= i < s.len() && (#[trigger] s[i])@.tx == x;
            if i < s.len() - 1 {
                assert(s.drop_last()[i]@.tx == x);
            }
        }
    }
}

pub proof fn lemma_txs_map_index(s: Seq<Transaction>, i: int)
    requires
        unique_tx_ids(s),
        0 <= i < s.len(),
    ensures
        txs_as_map(s).contains_key(s[i]@.tx),
        txs_as_map(s)[s[i]@.tx] == s[i]@,
    decreases s.len(),
{
    if i < s.len() - 1 {
        assert(unique_tx_ids(s.drop_last()));
        lemma_txs_map_index(s.drop_last(), i);
        assert(s.drop_last()[i] == s[i]);
        assert(s[i]@.tx != s.last()@.tx);
    }
}

pub proof fn lemma_txs_map_push(s: Seq<Transaction>, t: Transaction)
    ensures
        txs_as_map(s.push(t)) == txs_as_map(s).insert(t@.tx, t@),
{
    assert(s.push(t).drop_last() =~= s);
    assert(s.push(t).last() == t);
}

/// Storage for all applied deposit and withdrawal transactions.
pub struct TransactionStorage(pub Vec<Transaction>);

impl View for TransactionStorage {
    type V = Map<TransactionId, TransactionView>;

    open spec fn view(&self) -> Map<TransactionId, TransactionView> {
        txs_as_map(self.0@)
    }
}

impl TransactionStorage {
    /// The store keys its transactions by id, one entry per id.
    pub open spec fn wf(&self) -> bool {
        unique_tx_ids(self.0@)
    }

    /// Creates a new transaction storage instance.
    pub fn new() -> (r: Self)
        ensures
            r.wf(),
            r@ == Map::<TransactionId, TransactionView>::empty(),
    {
        TransactionStorage(Vec::new())
    }

    fn find(&self, id: TransactionId) -> (r: Option<usize>)
        ensures
            match r {
                Some(i) => i < self.0@.len() && self.0@[i as int]@.tx == id,
                None => forall|k: int| 0 <= k < self.0@.len() ==> (#[trigger] self.0@[k])@.tx != id,
            },
    {
        let n = self.0.len();
        let mut i: usize = 0;
        while i < n
            invariant
                i <= n,
                n == self.0@.len(),
                forall|k: int| 0 <= k < i ==> (#[trigger] self.0@[k])@.tx != id,
            decreases n - i,
        {
            if self.0[i].tx() == id {
                return Some(i);
            }
            i = i + 1;
        }
        None
    }

    /// Adds the given transaction to the storage, keyed by its id.
    /// If the transaction id is already present, the transaction is ignored:
    /// the originally applied one stays.
    pub fn add(&mut self, transaction: Transaction)
        requires
            old(self).wf(),
        ensures
            final(self).wf(),
            old(self)@.contains_key(transaction@.tx) ==> *final(self) == *old(self),
            !old(self)@.contains_key(transaction@.tx) ==> final(self)@ == old(self)@.insert(
                transaction@.tx,
                transaction@,
            ),
    {
        proof {
            lemma_txs_map_contains(self.0@, transaction@.tx);
        }
        match self.find(transaction.tx()) {
            Some(_) => {},
            None => {
                proof {
                    lemma_txs_map_push(self.0@, transaction);
                }
                self.0.push(transaction);
                proof {
                    assert forall|x: int, y: int|
                        0 <= x < y < self.0@.len() implies (#[trigger] self.0@[x])@.tx != (
                    #[trigger] self.0@[y])@.tx by {
                        if y == self.0@.len() - 1 {
                            assert(old(self).0@[x]@.tx != transaction@.tx);
                        }
                    }
                }
            },
        }
    }

    /// Gets a transaction from the storage if available.
    pub fn get(&self, id: &TransactionId) -> (r: Option<&Transaction>)
        requires
            self.wf(),
        ensures
            r is Some <==> self@.contains_key(*id),
            r is Some ==> (r->0)@ == self@[*id],
    {
        proof {
            lemma_txs_map_contains(self.0@, *id);
        }
        match self.find(*id) {
            Some(i) => {
                proof {
                    lemma_txs_map_index(self.0@, i as int);
                }
                Some(&self.0[i])
            },
            None => None,
        }
    }
}

/// Contains ids of transactions currently under dispute. Semantically a set:
/// marking the same id disputed twice has no further effect.
pub struct DisputeRegister(pub Vec<TransactionId>);

impl View for DisputeRegister {
    type V = Set<TransactionId>;

    open spec fn view(&self) -> Set<TransactionId> {
        self.0@.to_set()
    }
}

pub proof fn lemma_unique_remove_to_set(s: Seq<TransactionId>, i: int)
    requires
        forall|a: int, b: int| 0 <= a < b < s.len() ==> s[a] != s[b],
        0 <= i < s.len(),
    ensures
        s.remove(i).to_set() == s.to_set().remove(s[i]),
{
    let sr = s.remove(i);
    assert forall|y: TransactionId|
        sr.to_set().contains(y) == s.to_set().remove(s[i]).contains(y) by {
        if sr.contains(y) {
            let j = choose|j: int| 0 <= j < sr.len() && sr[j] == y;
            let k: int = if j < i {
                j
            } else {
                j + 1
            };
            assert(s[k] == y);
            assert(s.contains(y));
            assert(y != s[i]);
        }
        if s.contains(y) && y != s[i] {
            let k = choose|k: int| 0 <= k < s.len() && s[k] == y;
            let j: int = if k < i {
                k
            } else {
                k - 1
            };
            assert(sr[j] == y);
            assert(sr.contains(y));
        }
    }
    assert(sr.to_set() =~= s.to_set().remove(s[i]));
}

impl DisputeRegister {
    /// The register holds each disputed id once.
    pub open spec fn wf(&self) -> bool {
        forall|i: int, j: int| 0 <= i < j < self.0@.len() ==> self.0@[i] != self.0@[j]
    }

    /// Creates a new dispute register instance.
    pub fn new() -> (r: Self)
        ensures
            r.wf(),
            r@ == Set::<TransactionId>::empty(),
    {
        let r = DisputeRegister(Vec::new());
        proof {
            assert(r.0@.to_set() =~= Set::<TransactionId>::empty());
        }
        r
    }

    fn contains_id(&self, id: &TransactionId) -> (r: bool)
        ensures
            r == self@.contains(*id),
    {
        let n = self.0.len();
        let mut i: usize = 0;
        while i < n
            invariant
                i <= n,
                n == self.0@.len(),
                forall|k: int| 0 <= k < i ==> self.0@[k] != *id,
            decreases n - i,
        {
            if self.0[i] == *id {
                assert(self.0@.contains(*id));
                return true;
            }
            i = i + 1;
        }
        assert(!self.0@.contains(*id));
        false
    }

    /// Adds the transaction id to the dispute register. An id already under
    /// dispute is left as it is.
    pub fn dispute(&mut self, id: &TransactionId)
        requires
            old(self).wf(),
        ensures
            final(self).wf(),
            final(self)@ == old(self)@.insert(*id),
    {
        if !self.contains_id(id) {
            self.0.push(*id);
            proof {
                assert forall|y: TransactionId|
                    self.0@.to_set().contains(y) == old(self).0@.to_set().insert(*id).contains(
                        y,
                    ) by {
                    if self.0@.contains(y) {
                        let j = choose|j: int| 0 <= j < self.0@.len() && self.0@[j] == y;
                        if j < old(self).0@.len() {
                            assert(old(self).0@[j] == y);
                            assert(old(self).0@.contains(y));
                        }
                    }
                    if old(self).0@.contains(y) {
                        let j = choose|j: int| 0 <= j < old(self).0@.len() && old(self).0@[j] == y;
                        assert(self.0@[j] == y);
                        assert(self.0@.contains(y));
                    }
                    if y == *id {
                        assert(self.0@[self.0@.len() - 1] == y);
                        assert(self.0@.contains(y));
                    }
                }
                assert(self.0@.to_set() =~= old(self).0@.to_set().insert(*id));
                assert forall|x: int, y: int|
                    0 <= x < y < self.0@.len() implies self.0@[x] != self.0@[y] by {
                    if y == self.0@.len() - 1 {
                        assert(old(self).0@[x] != *id);
                    }
                }
            }
        } else {
            proof {
                assert(old(self)@.insert(*id) =~= old(self)@);
            }
        }
    }

    /// Removes the transaction id from the dispute register. An id not under
    /// dispute is left as it is.
    pub fn resolve(&mut self, id: &TransactionId)
        requires
            old(self).wf(),
        ensures
            final(self).wf(),
            final(self)@ == old(self)@.remove(*id),
    {
        let n = self.0.len();
        let mut i: usize = 0;
        while i < n
            invariant
                i <= n,
                n == self.0@.len(),
                old(self).wf(),
                *self == *old(self),
                forall|k: int| 0 <= k < i ==> self.0@[k] != *id,
            decreases n - i,
        {
            if self.0[i] == *id {
                proof {
                    lemma_unique_remove_to_set(self.0@, i as int);
                }
                self.0.remove(i);
                proof {
                    assert forall|x: int, y: int|
                        0 <= x < y < self.0@.len() implies self.0@[x] != self.0@[y] by {
                        let sx: int = if x < i {
                            x
                        } else {
                            x + 1
                        };
                        let sy: int = if y < i {
                            y
                        } else {
                            y + 1
                        };
                        assert(old(self).0@[sx] != old(self).0@[sy]);
                    }
                }
                return ;
            }
            i = i + 1;
        }
        proof {
            assert(!self.0@.contains(*id));
            assert(old(self)@.remove(*id) =~= old(self)@);
        }
    }

    /// Checks if the transaction id is in the dispute register.
    pub fn is_dispute(&mut self, id: &TransactionId) -> (r: bool)
        ensures
            r == old(self)@.contains(*id),
            *final(self) == *old(self),
    {
        self.contains_id(id)
    }
}

/// Combines accounts as well as all transactions and dispute transaction ids.
pub struct Storage {
    /// Stores accounts by client id.
    pub accounts: AccountStorage,
    /// Stores transactions by tx.
    pub transactions: TransactionStorage,
    /// Stores transaction ids that are under dispute.
    pub dispute_register: DisputeRegister,
}

impl Storage {
    /// Creates a new, empty storage.
    pub fn new() -> (r: Self)
        ensures
            r.accounts.wf(),
            r.transactions.wf(),
            r.dispute_register.wf(),
            r.accounts@ == Map::<AccountId, AccountView>::empty(),
            r.transactions@ == Map::<TransactionId, TransactionView>::empty(),
            r.dispute_register@ == Set::<TransactionId>::empty(),
    {
        Self {
            accounts: AccountStorage::new(),
            transactions: TransactionStorage::new(),
            dispute_register: DisputeRegister::new(),
        }
    }
}

} // verus!
