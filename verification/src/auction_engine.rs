//! Locks, compute-unit accounting and batch construction of the auction.
//!
//! - **Centralized lock management**: one [`LockManager`] owns all lock state.
//!   Locks are acquired when a transaction is scheduled, not when it is queued,
//!   and released when its execution is answered.
//! - **Batches**: candidates are placed greedily; what a candidate is worth is
//!   decided elsewhere and handed in as a [`Verdict`].
//! - **Bundles**: all transactions of a bundle are added, or none.

use vstd::prelude::*;
use vstd::multiset::Multiset;
use std::collections::HashSet;

use crate::ordered::{OrderedMap, OrderedSet};
use crate::pubkey::Pubkey;

verus! {

broadcast use vstd::std_specs::hash::group_hash_axioms;

/// Tracks which transactions hold locks on an account.
#[derive(Debug)]
pub struct AccountLockers {
    pub writers: HashSet<u64>,
    pub readers: HashSet<u64>,
}

impl View for AccountLockers {
    type V = Map<u64, bool>;

    /// From transaction key to lock type (true = write, false = read).
    open spec fn view(&self) -> Map<u64, bool> {
        Map::new(
            |key: u64| self.writers@.contains(key) || self.readers@.contains(key),
            |key: u64| self.writers@.contains(key),
        )
    }
}

/// A write lock requires no existing locks; a read lock requires no existing
/// write locks.
pub open spec fn grants(lockers: Map<u64, bool>, writable: bool) -> bool {
    if writable {
        lockers =~= Map::empty()
    } else {
        forall|key: u64| #[trigger] lockers.contains_key(key) ==> !lockers[key]
    }
}

impl AccountLockers {
    /// No transaction holds the account twice over.
    pub open spec fn wf(&self) -> bool {
        &&& self.writers@.disjoint(self.readers@)
        &&& self.writers@.finite()
        &&& self.readers@.finite()
    }

    /// Held by nobody.
    pub fn new() -> (r: Self)
        ensures
            r.wf(),
            r@ == Map::<u64, bool>::empty(),
    {
        let r = AccountLockers { writers: HashSet::new(), readers: HashSet::new() };
        assert(r@ =~= Map::empty());
        r
    }

    /// Check if the requested lock can be granted.
    pub fn can_lock(&self, writable: bool) -> (r: bool)
        requires
            self.wf(),
        ensures
            r == grants(self@, writable),
    {
        let no_writer: bool = self.writers.is_empty();
        let no_reader: bool = self.readers.is_empty();
        proof {
            assert(no_writer <==> self.writers@ =~= Set::empty());
            assert(no_reader <==> self.readers@ =~= Set::empty());
            if !no_writer {
                let key = self.writers@.choose();
                assert(self.writers@.contains(key));
                assert(self@.contains_key(key) && self@[key]);
            }
            if !no_reader {
                let key = self.readers@.choose();
                assert(self.readers@.contains(key));
                assert(self@.contains_key(key));
            }
        }
        if writable {
            no_writer && no_reader
        } else {
            no_writer
        }
    }

    /// Acquire a lock for the given transaction.
    pub fn acquire(&mut self, tx_key: u64, writable: bool)
        requires
            old(self).wf(),
        ensures
            final(self).wf(),
            final(self)@ == old(self)@.insert(tx_key, writable),
    {
        if writable {
            self.readers.remove(&tx_key);
            self.writers.insert(tx_key);
        } else {
            self.writers.remove(&tx_key);
            self.readers.insert(tx_key);
        }
        assert(self@ =~= old(self)@.insert(tx_key, writable));
    }

    /// Release all locks for the given transaction.
    pub fn release(&mut self, tx_key: u64)
        requires
            old(self).wf(),
        ensures
            final(self).wf(),
            final(self)@ == old(self)@.remove(tx_key),
    {
        self.writers.remove(&tx_key);
        self.readers.remove(&tx_key);
        assert(self@ =~= old(self)@.remove(tx_key));
    }

    /// Whether a transaction holds a lock on this account.
    pub fn holds(&self, tx_key: u64) -> (r: bool)
        requires
            self.wf(),
        ensures
            r == self@.contains_key(tx_key),
    {
        self.writers.contains(&tx_key) || self.readers.contains(&tx_key)
    }

    /// Number of transactions holding locks on this account.
    pub fn len(&self) -> (n: u128)
        requires
            self.wf(),
        ensures
            n == self@.dom().len(),
    {
        proof {
            assert(self@.dom() =~= self.writers@.union(self.readers@));
            vstd::set_lib::lemma_set_disjoint_lens(self.writers@, self.readers@);
        }
        self.writers.len() as u128 + self.readers.len() as u128
    }

    /// Whether any transaction holds a lock on this account.
    pub fn is_locked(&self) -> (r: bool)
        requires
            self.wf(),
        ensures
            r == (self@ != Map::<u64, bool>::empty()),
    {
        !self.is_empty()
    }

    /// Whether the lockers map is empty.
    pub fn is_empty(&self) -> (r: bool)
        requires
            self.wf(),
        ensures
            r == (self@ == Map::<u64, bool>::empty()),
    {
        let r: bool = self.can_lock(true);
        r
    }
}

/// Which transactions hold which account; an account that nobody holds is
/// absent.
pub type Holders = Map<Pubkey, Map<u64, bool>>;

/// The holders of an account.
pub open spec fn holders_at(table: Holders, account: Pubkey) -> Map<u64, bool> {
    if table.contains_key(account) {
        table[account]
    } else {
        Map::empty()
    }
}

/// Whether every lock can be granted.
pub open spec fn grants_all(table: Holders, locks: Seq<(Pubkey, bool)>) -> bool {
    forall|i: int| 0 <= i < locks.len() ==> grants(
        holders_at(table, (#[trigger] locks[i]).0),
        locks[i].1,
    )
}

/// The table after a transaction took the first `n` locks.
pub open spec fn acquired_upto(table: Holders, key: u64, locks: Seq<(Pubkey, bool)>, n: int) -> Holders
    decreases n,
{
    if n <= 0 {
        table
    } else {
        let t = acquired_upto(table, key, locks, n - 1);
        t.insert(locks[n - 1].0, holders_at(t, locks[n - 1].0).insert(key, locks[n - 1].1))
    }
}

/// The table after a transaction took its locks.
pub open spec fn acquired(table: Holders, key: u64, locks: Seq<(Pubkey, bool)>) -> Holders {
    acquired_upto(table, key, locks, locks.len() as int)
}

/// The table after a transaction gave up one account.
pub open spec fn released_one(table: Holders, key: u64, account: Pubkey) -> Holders {
    let left = holders_at(table, account).remove(key);
    if left == Map::<u64, bool>::empty() {
        table.remove(account)
    } else {
        table.insert(account, left)
    }
}

/// The table after a transaction gave up the first `n` locks.
pub open spec fn released_upto(table: Holders, key: u64, locks: Seq<(Pubkey, bool)>, n: int) -> Holders
    decreases n,
{
    if n <= 0 {
        table
    } else {
        released_one(released_upto(table, key, locks, n - 1), key, locks[n - 1].0)
    }
}

/// The table after a transaction gave up its locks.
pub open spec fn released(table: Holders, key: u64, locks: Seq<(Pubkey, bool)>) -> Holders {
    released_upto(table, key, locks, locks.len() as int)
}

/// Centralized lock manager.
///
/// Lock lifecycle:
/// 1. **Check**: `try_acquire`, without any change.
/// 2. **Acquire**: `acquire`, when a transaction is scheduled.
/// 3. **Release**: `release`, when its execution is answered.
pub struct LockManager {
    pub account_locks: OrderedMap<Pubkey, AccountLockers>,
}

impl View for LockManager {
    type V = Holders;

    open spec fn view(&self) -> Holders {
        self.account_locks@
    }
}

impl LockManager {
    /// The table is in order.
    pub open spec fn wf(&self) -> bool {
        &&& self.account_locks.wf()
        &&& forall|i: int| 0 <= i < self.account_locks.values@.len() ==> (
        #[trigger] self.account_locks.values@[i]).wf()
    }

    /// Nobody holds anything.
    pub fn new() -> (m: Self)
        ensures
            m.wf(),
            m@ == Map::<Pubkey, Map<u64, bool>>::empty(),
    {
        LockManager { account_locks: OrderedMap::new() }
    }

    /// Check if locks can be acquired without actually acquiring them.
    /// Returns true if all locks can be granted.
    pub fn try_acquire(&self, tx_locks: &Vec<(Pubkey, bool)>) -> (r: bool)
        requires
            self.wf(),
        ensures
            r == grants_all(self@, tx_locks@),
    {
        let mut i: usize = 0;
        while i < tx_locks.len()
            invariant
                0 <= i <= tx_locks@.len(),
                self.wf(),
                forall|j: int| 0 <= j < i ==> grants(
                    holders_at(self@, (#[trigger] tx_locks@[j]).0),
                    tx_locks@[j].1,
                ),
            decreases tx_locks@.len() - i,
        {
            let lock = tx_locks[i];
            assert(tx_locks@[i as int] == lock);
            match self.account_locks.get_at(&lock.0) {
                Some(at) => {
                    if !self.account_locks.values[at].can_lock(lock.1) {
                        return false;
                    }
                },
                None => {},
            }
            i = i + 1;
        }
        true
    }

    /// Whether a transaction holds a lock on an account.
    pub fn is_holder(&self, tx_key: u64, account: &Pubkey) -> (r: bool)
        requires
            self.wf(),
        ensures
            r == holders_at(self@, *account).contains_key(tx_key),
    {
        match self.account_locks.get_at(account) {
            Some(at) => self.account_locks.values[at].holds(tx_key),
            None => false,
        }
    }

    /// Acquire locks for a transaction.
    pub fn acquire(&mut self, tx_key: u64, tx_locks: &Vec<(Pubkey, bool)>)
        requires
            old(self).wf(),
        ensures
            final(self).wf(),
            final(self)@ == acquired(old(self)@, tx_key, tx_locks@),
    {
        let mut i: usize = 0;
        while i < tx_locks.len()
            invariant
                0 <= i <= tx_locks@.len(),
                self.wf(),
                self@ == acquired_upto(old(self)@, tx_key, tx_locks@, i as int),
            decreases tx_locks@.len() - i,
        {
            let lock = tx_locks[i];
            let mut lockers = match self.take(&lock.0) {
                Some(lockers) => lockers,
                None => AccountLockers::new(),
            };
            lockers.acquire(tx_key, lock.1);
            self.put(lock.0, lockers);
            i = i + 1;
            assert(self@ =~= acquired_upto(old(self)@, tx_key, tx_locks@, i as int));
        }
    }

    /// Release all locks for a transaction.
    pub fn release(&mut self, tx_key: u64, tx_locks: &Vec<(Pubkey, bool)>)
        requires
            old(self).wf(),
        ensures
            final(self).wf(),
            final(self)@ == released(old(self)@, tx_key, tx_locks@),
    {
        let mut i: usize = 0;
        while i < tx_locks.len()
            invariant
                0 <= i <= tx_locks@.len(),
                self.wf(),
                self@ == released_upto(old(self)@, tx_key, tx_locks@, i as int),
            decreases tx_locks@.len() - i,
        {
            let lock = tx_locks[i];
            match self.take(&lock.0) {
                Some(mut lockers) => {
                    lockers.release(tx_key);
                    if !lockers.is_empty() {
                        self.put(lock.0, lockers);
                    }
                },
                None => {
                    assert(Map::<u64, bool>::empty().remove(tx_key) =~= Map::empty());
                },
            }
            i = i + 1;
            assert(self@ =~= released_upto(old(self)@, tx_key, tx_locks@, i as int));
        }
    }

    fn take(&mut self, account: &Pubkey) -> (r: Option<AccountLockers>)
        requires
            old(self).wf(),
        ensures
            final(self).wf(),
            final(self)@ == old(self)@.remove(*account),
            match r {
                Some(lockers) => lockers.wf() && old(self)@.contains_key(*account) && old(
                    self,
                )@[*account] == lockers@,
                None => !old(self)@.contains_key(*account),
            },
    {
        let ghost before = self.account_locks.values@;
        match self.account_locks.get_at(account) {
            Some(at) => {
                let r = self.account_locks.remove_at(account, at);
                proof {
                    assert forall|i: int| 0 <= i < self.account_locks.values@.len() implies (
                    #[trigger] self.account_locks.values@[i]).wf() by {
                        if i < at {
                            assert(self.account_locks.values@[i] == before[i]);
                        } else {
                            assert(self.account_locks.values@[i] == before[i + 1]);
                        }
                    }
                }
                Some(r)
            },
            None => {
                assert(self@ =~= old(self)@.remove(*account));
                None
            },
        }
    }

    fn put(&mut self, account: Pubkey, lockers: AccountLockers)
        requires
            old(self).wf(),
            lockers.wf(),
            !old(self)@.contains_key(account),
        ensures
            final(self).wf(),
            final(self)@ == old(self)@.insert(account, lockers@),
    {
        let ghost before = self.account_locks.values@;
        let at: usize = self.account_locks.insert_new(account, lockers);
        proof {
            assert forall|i: int| 0 <= i < self.account_locks.values@.len() implies (
            #[trigger] self.account_locks.values@[i]).wf() by {
                if i < at {
                    assert(self.account_locks.values@[i] == before[i]);
                } else if i > at {
                    assert(self.account_locks.values@[i] == before[i - 1]);
                }
            }
        }
    }

    /// Reset all state (call at slot boundary).
    pub fn reset(&mut self)
        ensures
            final(self).wf(),
            final(self)@ == Map::<Pubkey, Map<u64, bool>>::empty(),
    {
        self.account_locks = OrderedMap::new();
    }

    /// Number of accounts with active locks.
    pub fn tracked_accounts(&self) -> (n: usize)
        requires
            self.wf(),
        ensures
            n == self@.dom().len(),
    {
        self.account_locks.len()
    }
}

/// Manages CU allocation between committed and tentative allocations.
#[derive(Clone, Copy, Debug, PartialEq, Eq, Structural)]
pub struct CUAllocation {
    /// Total CU available per block.
    pub max_cu: u64,
    /// Committed CU (already allocated to scheduled transactions).
    pub committed: u64,
    /// Tentative CU (reserved but not yet committed).
    pub tentative: u64,
}

impl CUAllocation {
    /// No more is allocated than there is.
    pub open spec fn wf(&self) -> bool {
        self.committed + self.tentative <= self.max_cu
    }

    /// Create a new CU allocator.
    pub fn new(max_cu: u64) -> (r: Self)
        ensures
            r.wf(),
            r == (CUAllocation { max_cu, committed: 0, tentative: 0 }),
    {
        CUAllocation { max_cu, committed: 0, tentative: 0 }
    }

    /// Get available CU for new allocations.
    pub fn available_cu(&self) -> (r: u64)
        requires
            self.wf(),
        ensures
            r == self.max_cu - self.committed - self.tentative,
    {
        self.max_cu - self.committed - self.tentative
    }

    /// Reserve CU tentatively; tells whether there was enough.
    pub fn reserve(&mut self, cu: u64) -> (r: bool)
        requires
            old(self).wf(),
        ensures
            final(self).wf(),
            r == (old(self).committed + old(self).tentative + cu <= old(self).max_cu),
            *final(self) == (if r {
                CUAllocation { tentative: (old(self).tentative + cu) as u64, ..*old(self) }
            } else {
                *old(self)
            }),
    {
        if self.available_cu() >= cu {
            self.tentative = self.tentative + cu;
            true
        } else {
            false
        }
    }

    /// Commit tentative allocation.
    pub fn commit(&mut self)
        requires
            old(self).wf(),
        ensures
            final(self).wf(),
            *final(self) == (CUAllocation {
                committed: (old(self).committed + old(self).tentative) as u64,
                tentative: 0,
                ..*old(self)
            }),
    {
        self.committed = self.committed + self.tentative;
        self.tentative = 0;
    }

    /// Release tentative allocation.
    pub fn release(&mut self)
        requires
            old(self).wf(),
        ensures
            final(self).wf(),
            *final(self) == (CUAllocation { tentative: 0, ..*old(self) }),
    {
        self.tentative = 0;
    }

    /// Reset allocation (call at slot boundary).
    pub fn reset(&mut self)
        ensures
            final(self).wf(),
            *final(self) == (CUAllocation { committed: 0, tentative: 0, ..*old(self) }),
    {
        self.committed = 0;
        self.tentative = 0;
    }
}

/// A candidate transaction for batch inclusion.
#[derive(Debug)]
pub struct TransactionCandidate {
    /// Compute unit limit.
    pub cu_limit: u64,
    /// All locks the transaction needs.
    pub all_locks: Vec<(Pubkey, bool)>,
    /// Priority fee.
    pub priority_fee: u64,
}

/// What a candidate holds.
#[verifier::ext_equal]
pub struct CandidateModel {
    pub cu_limit: u64,
    pub all_locks: Seq<(Pubkey, bool)>,
    pub priority_fee: u64,
}

impl View for TransactionCandidate {
    type V = CandidateModel;

    open spec fn view(&self) -> CandidateModel {
        CandidateModel {
            cu_limit: self.cu_limit,
            all_locks: self.all_locks@,
            priority_fee: self.priority_fee,
        }
    }
}

fn copy_locks(locks: &Vec<(Pubkey, bool)>) -> (r: Vec<(Pubkey, bool)>)
    ensures
        r@ == locks@,
{
    let mut r: Vec<(Pubkey, bool)> = Vec::new();
    let mut i: usize = 0;
    while i < locks.len()
        invariant
            0 <= i <= locks@.len(),
            r@ =~= locks@.take(i as int),
        decreases locks@.len() - i,
    {
        r.push(locks[i]);
        i = i + 1;
    }
    assert(locks@.take(locks@.len() as int) =~= locks@);
    r
}

fn copy_lock_map(locks: &OrderedMap<Pubkey, bool>) -> (r: OrderedMap<Pubkey, bool>)
    requires
        locks.wf(),
    ensures
        r.wf(),
        r@ == locks@,
{
    let mut items: Vec<Pubkey> = Vec::new();
    let mut values: Vec<bool> = Vec::new();
    let mut i: usize = 0;
    while i < locks.values.len()
        invariant
            0 <= i <= locks.values@.len(),
            locks.wf(),
            items@ =~= locks.keys.items@.take(i as int),
            values@ =~= locks.values@.take(i as int),
        decreases locks.values@.len() - i,
    {
        items.push(locks.keys.items[i]);
        values.push(locks.values[i]);
        i = i + 1;
    }
    let r = OrderedMap { keys: OrderedSet { items }, values };
    assert(r.keys@ =~= locks.keys@);
    assert(r.values@ =~= locks.values@);
    assert(r@ =~= locks@);
    r
}

impl TransactionCandidate {
    /// Another candidate like this one.
    pub fn duplicate(&self) -> (r: Self)
        ensures
            r@ == self@,
    {
        TransactionCandidate {
            cu_limit: self.cu_limit,
            all_locks: copy_locks(&self.all_locks),
            priority_fee: self.priority_fee,
        }
    }
}

/// A batch of transactions scheduled together.
pub struct TransactionBatch {
    /// CU used by this batch.
    pub cu_used: u64,
    /// Locks held by this batch.
    pub locks: OrderedMap<Pubkey, bool>,
    /// Transactions in this batch.
    pub transactions: Vec<TransactionCandidate>,
}

/// What a batch holds.
#[verifier::ext_equal]
pub struct CandidateBatch {
    pub cu_used: u64,
    pub locks: Map<Pubkey, bool>,
    pub transactions: Seq<CandidateModel>,
}

impl View for TransactionBatch {
    type V = CandidateBatch;

    open spec fn view(&self) -> CandidateBatch {
        CandidateBatch {
            cu_used: self.cu_used,
            locks: self.locks@,
            transactions: self.transactions@.map_values(|t: TransactionCandidate| t@),
        }
    }
}

/// The locks of a batch with the first `n` locks of another transaction.
pub open spec fn joined_upto(locks: Map<Pubkey, bool>, more: Seq<(Pubkey, bool)>, n: int) -> Map<
    Pubkey,
    bool,
>
    decreases n,
{
    if n <= 0 {
        locks
    } else {
        joined_upto(locks, more, n - 1).insert(more[n - 1].0, more[n - 1].1)
    }
}

impl CandidateBatch {
    /// Nothing in it.
    pub open spec fn none() -> CandidateBatch {
        CandidateBatch { cu_used: 0, locks: Map::empty(), transactions: Seq::empty() }
    }

    /// Whether there are compute units left for a transaction, and it writes no
    /// account that the batch locks.
    pub open spec fn fits(self, locks: Seq<(Pubkey, bool)>, cu: u64, max_cu: u64) -> bool {
        &&& self.cu_used + cu <= max_cu
        &&& forall|i: int| 0 <= i < locks.len() ==> !((#[trigger] locks[i]).1
            && self.locks.contains_key(locks[i].0))
    }

    /// With one more transaction.
    pub open spec fn with(self, tx: CandidateModel) -> CandidateBatch {
        CandidateBatch {
            cu_used: (self.cu_used + tx.cu_limit) as u64,
            locks: joined_upto(self.locks, tx.all_locks, tx.all_locks.len() as int),
            transactions: self.transactions.push(tx),
        }
    }

    /// With the first `n` of some transactions.
    pub open spec fn with_upto(self, txs: Seq<CandidateModel>, n: int) -> CandidateBatch
        decreases n,
    {
        if n <= 0 {
            self
        } else {
            self.with_upto(txs, n - 1).with(txs[n - 1])
        }
    }

    /// Whether some transactions fit, one after the other.
    pub open spec fn fits_all(self, txs: Seq<CandidateModel>, max_cu: u64) -> bool {
        forall|k: int| 0 <= k < txs.len() ==> (#[trigger] self.with_upto(txs, k)).fits(
            txs[k].all_locks,
            txs[k].cu_limit,
            max_cu,
        )
    }
}

impl TransactionBatch {
    /// The lock table is in order.
    pub open spec fn wf(&self) -> bool {
        self.locks.wf()
    }

    /// Create a new empty batch.
    pub fn new() -> (r: Self)
        ensures
            r.wf(),
            r@ == CandidateBatch::none(),
    {
        let r = TransactionBatch { cu_used: 0, locks: OrderedMap::new(), transactions: Vec::new() };
        assert(r@.transactions =~= Seq::empty());
        r
    }

    /// Check if a transaction can be added to this batch.
    pub fn can_add(&self, tx_locks: &Vec<(Pubkey, bool)>, cu: u64, max_cu: u64) -> (r: bool)
        requires
            self.wf(),
        ensures
            r == self@.fits(tx_locks@, cu, max_cu),
    {
        if self.cu_used > max_cu || cu > max_cu - self.cu_used {
            return false;
        }
        let mut i: usize = 0;
        while i < tx_locks.len()
            invariant
                0 <= i <= tx_locks@.len(),
                self.wf(),
                forall|j: int| 0 <= j < i ==> !((#[trigger] tx_locks@[j]).1 && self@.locks.contains_key(
                    tx_locks@[j].0,
                )),
            decreases tx_locks@.len() - i,
        {
            let lock = tx_locks[i];
            assert(tx_locks@[i as int] == lock);
            if lock.1 && self.locks.get_at(&lock.0).is_some() {
                return false;
            }
            i = i + 1;
        }
        true
    }

    /// Add a transaction to this batch.
    pub fn add(&mut self, tx: &TransactionCandidate)
        requires
            old(self).wf(),
            old(self).cu_used + tx.cu_limit <= u64::MAX,
        ensures
            final(self).wf(),
            final(self)@ == old(self)@.with(tx@),
    {
        self.cu_used = self.cu_used + tx.cu_limit;
        let mut i: usize = 0;
        while i < tx.all_locks.len()
            invariant
                0 <= i <= tx.all_locks@.len(),
                self.wf(),
                self.cu_used == old(self).cu_used + tx.cu_limit,
                self.transactions == old(self).transactions,
                self.locks@ == joined_upto(old(self).locks@, tx.all_locks@, i as int),
            decreases tx.all_locks@.len() - i,
        {
            let lock = tx.all_locks[i];
            self.locks.remove(&lock.0);
            self.locks.insert_new(lock.0, lock.1);
            i = i + 1;
            assert(self.locks@ =~= joined_upto(old(self).locks@, tx.all_locks@, i as int));
        }
        self.transactions.push(tx.duplicate());
        assert(self@.transactions =~= old(self)@.transactions.push(tx@));
    }

    /// Another batch like this one.
    pub fn duplicate(&self) -> (r: Self)
        requires
            self.wf(),
        ensures
            r.wf(),
            r@ == self@,
    {
        let mut transactions: Vec<TransactionCandidate> = Vec::new();
        let mut i: usize = 0;
        while i < self.transactions.len()
            invariant
                0 <= i <= self.transactions@.len(),
                transactions@.len() == i,
                forall|j: int| 0 <= j < i ==> (#[trigger] transactions@[j])@ == self.transactions@[j]@,
            decreases self.transactions@.len() - i,
        {
            transactions.push(self.transactions[i].duplicate());
            i = i + 1;
        }
        let r = TransactionBatch {
            cu_used: self.cu_used,
            locks: copy_lock_map(&self.locks),
            transactions,
        };
        assert(r@.transactions =~= self@.transactions);
        r
    }

    /// Get the number of transactions in this batch.
    pub fn len(&self) -> (n: usize)
        ensures
            n == self@.transactions.len(),
    {
        self.transactions.len()
    }

    /// Whether this batch is empty.
    pub fn is_empty(&self) -> (r: bool)
        ensures
            r == (self@.transactions.len() == 0),
    {
        self.transactions.len() == 0
    }
}

/// What a candidate is worth, as far as placing it depends on that.
#[derive(Clone, Copy, Debug, PartialEq, Eq, Structural)]
pub struct Verdict {
    /// Whether its surplus is a number above negative infinity, so that it beats
    /// having no batch at all.
    pub scorable: bool,
    /// Whether its surplus is above the acceptance threshold.
    pub accepted: bool,
}

/// The first batch, from `from` on, that a candidate fits into.
pub open spec fn first_fit(
    batches: Seq<CandidateBatch>,
    tx: CandidateModel,
    max_cu: u64,
    from: int,
) -> Option<int>
    decreases batches.len() - from,
{
    if from < 0 || from >= batches.len() {
        None
    } else if batches[from].fits(tx.all_locks, tx.cu_limit, max_cu) {
        Some(from)
    } else {
        first_fit(batches, tx, max_cu, from + 1)
    }
}

/// The best batch for a candidate. Its surplus is the same in every batch, so
/// that is the first one it fits into.
pub open spec fn best_batch(
    batches: Seq<CandidateBatch>,
    tx: CandidateModel,
    verdict: Verdict,
    max_cu: u64,
) -> Option<int> {
    if verdict.scorable {
        first_fit(batches, tx, max_cu, 0)
    } else {
        None
    }
}

/// The batches after a candidate was placed: an accepted one in its best batch,
/// or else in a new one, and any other nowhere.
pub open spec fn placed(
    batches: Seq<CandidateBatch>,
    tx: CandidateModel,
    verdict: Verdict,
    max_cu: u64,
) -> Seq<CandidateBatch> {
    match best_batch(batches, tx, verdict, max_cu) {
        Some(i) => if verdict.accepted {
            batches.update(i, batches[i].with(tx))
        } else {
            batches
        },
        None => if verdict.accepted && CandidateBatch::none().fits(
            tx.all_locks,
            tx.cu_limit,
            max_cu,
        ) {
            batches.push(CandidateBatch::none().with(tx))
        } else {
            batches
        },
    }
}

/// The batches after the first `n` candidates were placed.
pub open spec fn built_upto(
    candidates: Seq<CandidateModel>,
    verdicts: Seq<Verdict>,
    max_cu: u64,
    n: int,
) -> Seq<CandidateBatch>
    decreases n,
{
    if n <= 0 {
        Seq::empty()
    } else {
        placed(
            built_upto(candidates, verdicts, max_cu, n - 1),
            candidates[n - 1],
            verdicts[n - 1],
            max_cu,
        )
    }
}

/// The first batch, from `from` on, that a whole bundle fits into.
pub open spec fn first_bundle_fit(
    batches: Seq<CandidateBatch>,
    bundle: Seq<CandidateModel>,
    max_cu: u64,
    from: int,
) -> Option<int>
    decreases batches.len() - from,
{
    if from < 0 || from >= batches.len() {
        None
    } else if batches[from].fits_all(bundle, max_cu) {
        Some(from)
    } else {
        first_bundle_fit(batches, bundle, max_cu, from + 1)
    }
}

/// The best batch for a bundle, whose worth is that of its first transaction.
pub open spec fn best_bundle_batch(
    batches: Seq<CandidateBatch>,
    bundle: Seq<CandidateModel>,
    verdict: Verdict,
    max_cu: u64,
) -> Option<int> {
    if verdict.scorable {
        first_bundle_fit(batches, bundle, max_cu, 0)
    } else {
        None
    }
}

/// The batches after a bundle was placed, and the batch that holds it; all of
/// it is placed, or nothing.
pub open spec fn bundle_placed(
    batches: Seq<CandidateBatch>,
    bundle: Seq<CandidateModel>,
    verdict: Verdict,
    max_cu: u64,
) -> (Seq<CandidateBatch>, Option<CandidateBatch>) {
    let n = bundle.len() as int;
    if !CandidateBatch::none().fits_all(bundle, max_cu) {
        (batches, None)
    } else {
        match best_bundle_batch(batches, bundle, verdict, max_cu) {
            Some(i) => {
                let joined = batches[i].with_upto(bundle, n);
                (batches.update(i, joined), Some(joined))
            },
            None => if verdict.accepted {
                let fresh = CandidateBatch::none().with_upto(bundle, n);
                (batches.push(fresh), Some(fresh))
            } else {
                (batches, None)
            },
        }
    }
}

/// What some batches hold.
pub open spec fn batch_models(batches: Seq<TransactionBatch>) -> Seq<CandidateBatch> {
    batches.map_values(|b: TransactionBatch| b@)
}

/// What some candidates hold.
pub open spec fn candidate_models(txs: Seq<TransactionCandidate>) -> Seq<CandidateModel> {
    txs.map_values(|t: TransactionCandidate| t@)
}

/// Find the best batch for a transaction (greedy approach).
pub fn find_best_batch(
    tx: &TransactionCandidate,
    verdict: &Verdict,
    batches: &Vec<TransactionBatch>,
    max_cu: u64,
) -> (r: Option<usize>)
    requires
        forall|i: int| 0 <= i < batches@.len() ==> (#[trigger] batches@[i]).wf(),
    ensures
        match r {
            Some(i) => i < batches@.len() && best_batch(
                batch_models(batches@),
                tx@,
                *verdict,
                max_cu,
            ) == Some(i as int),
            None => best_batch(batch_models(batches@), tx@, *verdict, max_cu) is None,
        },
{
    if !verdict.scorable {
        return None;
    }
    let ghost models = batch_models(batches@);
    let mut i: usize = 0;
    while i < batches.len()
        invariant
            0 <= i <= batches@.len(),
            verdict.scorable,
            models == batch_models(batches@),
            forall|j: int| 0 <= j < batches@.len() ==> (#[trigger] batches@[j]).wf(),
            first_fit(models, tx@, max_cu, 0) == first_fit(models, tx@, max_cu, i as int),
        decreases batches@.len() - i,
    {
        assert(models[i as int] == batches@[i as int]@);
        if batches[i].can_add(&tx.all_locks, tx.cu_limit, max_cu) {
            return Some(i);
        }
        i = i + 1;
    }
    None
}

/// Build batches from a list of transaction candidates.
///
/// Uses a greedy approach: take candidates in order, find the best batch for
/// each, or else open a new one, and add if the candidate is accepted.
pub fn build_batches(
    candidates: &Vec<TransactionCandidate>,
    verdicts: &Vec<Verdict>,
    max_cu: u64,
) -> (batches: Vec<TransactionBatch>)
    requires
        candidates@.len() == verdicts@.len(),
    ensures
        batch_models(batches@) == built_upto(
            candidate_models(candidates@),
            verdicts@,
            max_cu,
            candidates@.len() as int,
        ),
        forall|i: int| 0 <= i < batches@.len() ==> (#[trigger] batches@[i]).wf()
            && batches@[i].cu_used <= max_cu,
{
    let ghost all = candidate_models(candidates@);
    let mut batches: Vec<TransactionBatch> = Vec::new();
    let mut n: usize = 0;
    assert(batch_models(batches@) =~= Seq::empty());
    while n < candidates.len()
        invariant
            0 <= n <= candidates@.len(),
            candidates@.len() == verdicts@.len(),
            all == candidate_models(candidates@),
            forall|i: int| 0 <= i < batches@.len() ==> (#[trigger] batches@[i]).wf()
                && batches@[i].cu_used <= max_cu,
            batch_models(batches@) == built_upto(all, verdicts@, max_cu, n as int),
        decreases candidates@.len() - n,
    {
        let tx = &candidates[n];
        let verdict = verdicts[n];
        let ghost before = batch_models(batches@);
        assert(all[n as int] == tx@);
        match find_best_batch(tx, &verdict, &batches, max_cu) {
            Some(at) => {
                proof {
                    lemma_first_fit(before, tx@, max_cu, 0);
                    assert(before[at as int] == batches@[at as int]@);
                }
                if verdict.accepted {
                    let mut batch = batches.remove(at);
                    batch.add(tx);
                    batches.insert(at, batch);
                    assert(batch_models(batches@) =~= placed(before, tx@, verdict, max_cu));
                }
            },
            None => {
                let mut fresh = TransactionBatch::new();
                if fresh.can_add(&tx.all_locks, tx.cu_limit, max_cu) && verdict.accepted {
                    fresh.add(tx);
                    batches.push(fresh);
                    assert(batch_models(batches@) =~= placed(before, tx@, verdict, max_cu));
                }
            },
        }
        n = n + 1;
    }
    batches
}

/// A batch with a whole bundle added, if all of it fits.
fn with_bundle(batch: &TransactionBatch, bundle: &Vec<TransactionCandidate>, max_cu: u64) -> (r:
    Option<TransactionBatch>)
    requires
        batch.wf(),
    ensures
        match r {
            Some(joined) => joined.wf() && batch@.fits_all(candidate_models(bundle@), max_cu)
                && joined@ == batch@.with_upto(candidate_models(bundle@), bundle@.len() as int),
            None => !batch@.fits_all(candidate_models(bundle@), max_cu),
        },
{
    let ghost all = candidate_models(bundle@);
    let mut joined = batch.duplicate();
    let mut n: usize = 0;
    while n < bundle.len()
        invariant
            0 <= n <= bundle@.len(),
            all == candidate_models(bundle@),
            joined.wf(),
            joined@ == batch@.with_upto(all, n as int),
            forall|k: int| 0 <= k < n ==> (#[trigger] batch@.with_upto(all, k)).fits(
                all[k].all_locks,
                all[k].cu_limit,
                max_cu,
            ),
        decreases bundle@.len() - n,
    {
        assert(all[n as int] == bundle@[n as int]@);
        if !joined.can_add(&bundle[n].all_locks, bundle[n].cu_limit, max_cu) {
            return None;
        }
        joined.add(&bundle[n]);
        n = n + 1;
    }
    Some(joined)
}

/// Build a bundle batch: validate all transactions together, add all or none.
///
/// The bundle joins the first batch that it fits into as a whole, or else a new
/// one if it is accepted. Returns the batch that holds the bundle if the entire
/// bundle was added, `None` otherwise.
pub fn build_bundle_batch(
    bundle: &Vec<TransactionCandidate>,
    verdict: &Verdict,
    existing_batches: &mut Vec<TransactionBatch>,
    max_cu: u64,
) -> (r: Option<TransactionBatch>)
    requires
        bundle@.len() > 0,
        forall|i: int| 0 <= i < old(existing_batches)@.len() ==> (#[trigger] old(
            existing_batches,
        )@[i]).wf(),
    ensures
        batch_models(final(existing_batches)@) == bundle_placed(
            batch_models(old(existing_batches)@),
            candidate_models(bundle@),
            *verdict,
            max_cu,
        ).0,
        match r {
            Some(batch) => batch.wf() && bundle_placed(
                batch_models(old(existing_batches)@),
                candidate_models(bundle@),
                *verdict,
                max_cu,
            ).1 == Some(batch@),
            None => bundle_placed(
                batch_models(old(existing_batches)@),
                candidate_models(bundle@),
                *verdict,
                max_cu,
            ).1 is None,
        },
        forall|i: int| 0 <= i < final(existing_batches)@.len() ==>
            (#[trigger] final(existing_batches)@[i]).wf(),
{
    let ghost all = candidate_models(bundle@);
    let ghost before = batch_models(existing_batches@);
    let candidate_batch = match with_bundle(&TransactionBatch::new(), bundle, max_cu) {
        Some(batch) => batch,
        None => return None,
    };
    if verdict.scorable {
        let mut i: usize = 0;
        while i < existing_batches.len()
            invariant
                0 <= i <= existing_batches@.len(),
                verdict.scorable,
                all == candidate_models(bundle@),
                existing_batches@ == old(existing_batches)@,
                before == batch_models(existing_batches@),
                forall|j: int| 0 <= j < existing_batches@.len() ==> (#[trigger] existing_batches@[j]).wf(),
                CandidateBatch::none().fits_all(all, max_cu),
                first_bundle_fit(before, all, max_cu, 0) == first_bundle_fit(
                    before,
                    all,
                    max_cu,
                    i as int,
                ),
            decreases existing_batches@.len() - i,
        {
            assert(before[i as int] == existing_batches@[i as int]@);
            if let Some(joined) = with_bundle(&existing_batches[i], bundle, max_cu) {
                let copy = joined.duplicate();
                existing_batches.set(i, joined);
                assert(batch_models(existing_batches@) =~= before.update(i as int, copy@));
                return Some(copy);
            }
            i = i + 1;
        }
    }
    if verdict.accepted {
        let copy = candidate_batch.duplicate();
        existing_batches.push(candidate_batch);
        assert(batch_models(existing_batches@) =~= before.push(copy@));
        Some(copy)
    } else {
        None
    }
}

/// The compute units of the first `n` candidates together.
pub open spec fn cu_upto(txs: Seq<CandidateModel>, n: int) -> int
    decreases n,
{
    if n <= 0 {
        0
    } else {
        cu_upto(txs, n - 1) + txs[n - 1].cu_limit
    }
}

/// The first fit is a batch that the candidate fits into, and none before it is.
pub proof fn lemma_first_fit(
    batches: Seq<CandidateBatch>,
    tx: CandidateModel,
    max_cu: u64,
    from: int,
)
    requires
        0 <= from,
    ensures
        match first_fit(batches, tx, max_cu, from) {
            Some(i) => from <= i < batches.len() && batches[i].fits(
                tx.all_locks,
                tx.cu_limit,
                max_cu,
            ) && forall|j: int| from <= j < i ==> !(#[trigger] batches[j]).fits(
                tx.all_locks,
                tx.cu_limit,
                max_cu,
            ),
            None => forall|j: int| from <= j < batches.len() ==> !(#[trigger] batches[j]).fits(
                tx.all_locks,
                tx.cu_limit,
                max_cu,
            ),
        },
    decreases batches.len() - from,
{
    if from < batches.len() && !batches[from].fits(tx.all_locks, tx.cu_limit, max_cu) {
        lemma_first_fit(batches, tx, max_cu, from + 1);
    }
}

/// The first fit of a bundle is a batch that all of it fits into, and none before
/// it is.
pub proof fn lemma_first_bundle_fit(
    batches: Seq<CandidateBatch>,
    bundle: Seq<CandidateModel>,
    max_cu: u64,
    from: int,
)
    requires
        0 <= from,
    ensures
        match first_bundle_fit(batches, bundle, max_cu, from) {
            Some(i) => from <= i < batches.len() && batches[i].fits_all(bundle, max_cu) && forall|
                j: int,
            |
                from <= j < i ==> !(#[trigger] batches[j]).fits_all(bundle, max_cu),
            None => forall|j: int| from <= j < batches.len() ==> !(#[trigger] batches[j]).fits_all(
                bundle,
                max_cu,
            ),
        },
    decreases batches.len() - from,
{
    if from < batches.len() && !batches[from].fits_all(bundle, max_cu) {
        lemma_first_bundle_fit(batches, bundle, max_cu, from + 1);
    }
}

/// The locks and the compute units of the block auction.
///
/// Prices, entropy and surplus are kept by the caller.
pub struct AuctionEngine {
    /// CU allocation (committed vs tentative).
    pub cu_allocation: CUAllocation,
    /// Centralized lock manager.
    pub lock_manager: LockManager,
}

impl AuctionEngine {
    /// Locks and allocation are in order.
    pub open spec fn wf(&self) -> bool {
        self.lock_manager.wf() && self.cu_allocation.wf()
    }

    /// Create a new auction engine for blocks of a size.
    pub fn new(max_block_cu: u64) -> (r: Self)
        ensures
            r.wf(),
            r.cu_allocation == (CUAllocation { max_cu: max_block_cu, committed: 0, tentative: 0 }),
            r.lock_manager@ == Map::<Pubkey, Map<u64, bool>>::empty(),
    {
        AuctionEngine {
            cu_allocation: CUAllocation::new(max_block_cu),
            lock_manager: LockManager::new(),
        }
    }

    /// Acquire locks for a transaction (schedule-time locking).
    /// Returns true if locks were acquired, false if conflicts exist.
    pub fn acquire_locks(&mut self, tx_key: u64, tx_locks: &Vec<(Pubkey, bool)>) -> (r: bool)
        requires
            old(self).wf(),
        ensures
            final(self).wf(),
            final(self).cu_allocation == old(self).cu_allocation,
            r == grants_all(old(self).lock_manager@, tx_locks@),
            final(self).lock_manager@ == (if r {
                acquired(old(self).lock_manager@, tx_key, tx_locks@)
            } else {
                old(self).lock_manager@
            }),
    {
        if self.lock_manager.try_acquire(tx_locks) {
            self.lock_manager.acquire(tx_key, tx_locks);
            true
        } else {
            false
        }
    }

    /// Release locks for a transaction (on execution response).
    pub fn release_locks(&mut self, tx_key: u64, tx_locks: &Vec<(Pubkey, bool)>)
        requires
            old(self).wf(),
        ensures
            final(self).wf(),
            final(self).cu_allocation == old(self).cu_allocation,
            final(self).lock_manager@ == released(old(self).lock_manager@, tx_key, tx_locks@),
    {
        self.lock_manager.release(tx_key, tx_locks);
    }

    /// Get available CU for new transactions.
    pub fn available_cu(&self) -> (r: u64)
        requires
            self.wf(),
        ensures
            r == self.cu_allocation.max_cu - self.cu_allocation.committed
                - self.cu_allocation.tentative,
    {
        self.cu_allocation.available_cu()
    }

    /// The locks.
    pub fn lock_manager(&self) -> (r: &LockManager)
        ensures
            *r == self.lock_manager,
    {
        &self.lock_manager
    }

    /// The cost units.
    pub fn cu_allocation(&self) -> (r: &CUAllocation)
        ensures
            *r == self.cu_allocation,
    {
        &self.cu_allocation
    }

    /// Reset for a new slot.
    pub fn reset(&mut self)
        requires
            old(self).wf(),
        ensures
            final(self).wf(),
            final(self).lock_manager@ == Map::<Pubkey, Map<u64, bool>>::empty(),
            final(self).cu_allocation == (CUAllocation {
                committed: 0,
                tentative: 0,
                ..old(self).cu_allocation
            }),
    {
        self.lock_manager.reset();
        self.cu_allocation.reset();
    }
}

/// No account is named twice.
pub open spec fn distinct_accounts(locks: Seq<(Pubkey, bool)>) -> bool {
    forall|i: int, j: int| #![trigger locks[i], locks[j]]
        0 <= i < j < locks.len() ==> locks[i].0 != locks[j].0
}

/// A transaction holds none of the accounts it names.
pub open spec fn holds_nothing(table: Holders, key: u64, locks: Seq<(Pubkey, bool)>) -> bool {
    forall|i: int| 0 <= i < locks.len() ==> !holders_at(
        table,
        (#[trigger] locks[i]).0,
    ).contains_key(key)
}

/// An account that is recorded is held by someone.
pub open spec fn no_idle_entry(table: Holders) -> bool {
    forall|account: Pubkey| #[trigger] table.contains_key(account) ==> table[account] != Map::<
        u64,
        bool,
    >::empty()
}

/// A transaction that holds an account for writing is its only holder.
pub open spec fn writer_alone(holders: Map<u64, bool>) -> bool {
    forall|a: u64, b: u64| #![trigger holders.contains_key(a), holders.contains_key(b)]
        holders.contains_key(a) && holders.contains_key(b) && holders[a] ==> a == b
}

/// On every account, a writer is alone.
pub open spec fn writers_alone(table: Holders) -> bool {
    forall|account: Pubkey| #[trigger] table.contains_key(account) ==> writer_alone(table[account])
}

/// What taking locks does to one account: the last lock that names it counts.
pub proof fn lemma_acquired_at(
    table: Holders,
    key: u64,
    locks: Seq<(Pubkey, bool)>,
    n: int,
    account: Pubkey,
)
    requires
        0 <= n <= locks.len(),
    ensures
        (forall|i: int| 0 <= i < n ==> (#[trigger] locks[i]).0 != account) ==> holders_at(
            acquired_upto(table, key, locks, n),
            account,
        ) == holders_at(table, account) && (acquired_upto(table, key, locks, n).contains_key(account)
            <==> table.contains_key(account)),
        forall|i: int| 0 <= i < n && (#[trigger] locks[i]).0 == account ==> ({
            let t = acquired_upto(table, key, locks, n);
            let holders = holders_at(t, account);
            &&& t.contains_key(account) && holders.contains_key(key)
            &&& holders == holders_at(table, account).insert(key, holders[key])
            &&& exists|j: int| 0 <= j < n && #[trigger] locks[j] == (account, holders[key])
        }),
    decreases n,
{
    if n > 0 {
        lemma_acquired_at(table, key, locks, n - 1, account);
        let last = locks[n - 1];
        let base = holders_at(table, account);
        let before = holders_at(acquired_upto(table, key, locks, n - 1), account);
        let after = holders_at(acquired_upto(table, key, locks, n), account);
        if last.0 == account {
            assert(after == before.insert(key, last.1));
            if exists|i: int| 0 <= i < n - 1 && (#[trigger] locks[i]).0 == account {
                assert(base.insert(key, before[key]).insert(key, last.1) =~= base.insert(key, last.1));
            }
            assert(after =~= base.insert(key, last.1));
            assert(locks[n - 1] == (account, after[key]));
        } else {
            assert(after == before);
            if exists|i: int| 0 <= i < n && (#[trigger] locks[i]).0 == account {
                let i = choose|i: int| 0 <= i < n && (#[trigger] locks[i]).0 == account;
                assert(i < n - 1);
                assert(locks[i].0 == account);
                let j = choose|j: int| 0 <= j < n - 1 && #[trigger] locks[j] == (account, before[key]);
                assert(0 <= j < n && locks[j] == (account, after[key]));
            }
        }
    }
}

/// What giving up locks does to one account.
pub proof fn lemma_released_at(
    table: Holders,
    key: u64,
    locks: Seq<(Pubkey, bool)>,
    n: int,
    account: Pubkey,
)
    requires
        0 <= n <= locks.len(),
    ensures
        (forall|i: int| 0 <= i < n ==> (#[trigger] locks[i]).0 != account) ==> holders_at(
            released_upto(table, key, locks, n),
            account,
        ) == holders_at(table, account) && (released_upto(table, key, locks, n).contains_key(account)
            <==> table.contains_key(account)),
        forall|i: int| 0 <= i < n && (#[trigger] locks[i]).0 == account ==> ({
            let left = holders_at(table, account).remove(key);
            let t = released_upto(table, key, locks, n);
            (t.contains_key(account) <==> left != Map::<u64, bool>::empty()) && holders_at(t, account)
                == left
        }),
    decreases n,
{
    if n > 0 {
        lemma_released_at(table, key, locks, n - 1, account);
        assert(locks[n - 1] == locks[n - 1]);
        let left = holders_at(table, account).remove(key);
        assert(left.remove(key) =~= left);
    }
}

/// Releasing the locks just acquired restores the table.
pub proof fn lemma_release_undoes_acquire(table: Holders, key: u64, locks: Seq<(Pubkey, bool)>)
    requires
        no_idle_entry(table),
        holds_nothing(table, key, locks),
    ensures
        released(acquired(table, key, locks), key, locks) == table,
{
    let n = locks.len() as int;
    let taken = acquired(table, key, locks);
    let restored = released(taken, key, locks);
    assert forall|account: Pubkey|
        holders_at(restored, account) == holders_at(table, account) && (
        #[trigger] restored.contains_key(account) <==> table.contains_key(account)) by {
        lemma_acquired_at(table, key, locks, n, account);
        lemma_released_at(taken, key, locks, n, account);
        if exists|i: int| 0 <= i < n && (#[trigger] locks[i]).0 == account {
            let i = choose|i: int| 0 <= i < n && (#[trigger] locks[i]).0 == account;
            let holders = holders_at(table, account);
            assert(!holders.contains_key(key));
            assert(locks[i].0 == account);
            assert(holders_at(taken, account).remove(key) =~= holders);
        }
    }
    assert forall|account: Pubkey| #[trigger] restored.contains_key(account) implies restored[account]
        == table[account] by {
        assert(holders_at(restored, account) == holders_at(table, account));
    }
    assert(restored =~= table);
}

/// Locks that were granted leave every writer alone on its account.
pub proof fn lemma_granted_writers_alone(table: Holders, key: u64, locks: Seq<(Pubkey, bool)>)
    requires
        writers_alone(table),
        grants_all(table, locks),
    ensures
        writers_alone(acquired(table, key, locks)),
{
    let n = locks.len() as int;
    let taken = acquired(table, key, locks);
    assert forall|account: Pubkey| #[trigger] taken.contains_key(account) implies writer_alone(
        taken[account],
    ) by {
        lemma_acquired_at(table, key, locks, n, account);
        if exists|i: int| 0 <= i < n && (#[trigger] locks[i]).0 == account {
            let i = choose|i: int| 0 <= i < n && (#[trigger] locks[i]).0 == account;
            let holders = holders_at(table, account);
            assert(locks[i].0 == account);
            let j = choose|j: int|
                0 <= j < n && #[trigger] locks[j] == (account, taken[account][key]);
            assert(grants(holders, locks[j].1));
            assert(taken[account] == holders.insert(key, locks[j].1));
        }
    }
}

/// While a transaction holds its accounts, no lock is granted that would let
/// one of two holders write.
pub proof fn lemma_held_accounts_not_granted(
    table: Holders,
    key: u64,
    locks: Seq<(Pubkey, bool)>,
    other: Seq<(Pubkey, bool)>,
    i: int,
    j: int,
)
    requires
        distinct_accounts(locks),
        0 <= i < locks.len(),
        0 <= j < other.len(),
        locks[i].0 == other[j].0,
        locks[i].1 || other[j].1,
    ensures
        !grants_all(acquired(table, key, locks), other),
{
    lemma_acquired_at(table, key, locks, locks.len() as int, locks[i].0);
    let holders = holders_at(acquired(table, key, locks), other[j].0);
    assert(locks[i].0 == locks[i].0);
    let k = choose|k: int|
        0 <= k < locks.len() && #[trigger] locks[k] == (locks[i].0, holders[key]);
    assert(locks[k] == locks[i]);
    assert(holders.contains_key(key) && holders[key] == locks[i].1);
    assert(!grants(holders, other[j].1)) by {
        if other[j].1 {
            assert(!(holders =~= Map::empty()));
        }
    }
}

/// Reserving and then committing takes from what is available, once.
pub proof fn lemma_reserve_commit(a: CUAllocation, cu: u64)
    requires
        a.wf(),
        a.committed + a.tentative + cu <= a.max_cu,
    ensures
        ({
            let reserved = CUAllocation { tentative: (a.tentative + cu) as u64, ..a };
            let committed = CUAllocation {
                committed: (reserved.committed + reserved.tentative) as u64,
                tentative: 0,
                ..reserved
            };
            committed.max_cu - committed.committed - committed.tentative == a.max_cu - a.committed
                - a.tentative - cu
        }),
{
}

/// Every batch that is built stays within its compute units, which are those of
/// its transactions.
pub proof fn lemma_built_within_limit(
    candidates: Seq<CandidateModel>,
    verdicts: Seq<Verdict>,
    max_cu: u64,
    n: int,
)
    requires
        0 <= n <= candidates.len(),
    ensures
        forall|i: int| 0 <= i < built_upto(candidates, verdicts, max_cu, n).len() ==> ({
            let batch = #[trigger] built_upto(candidates, verdicts, max_cu, n)[i];
            batch.cu_used <= max_cu && batch.cu_used == cu_upto(
                batch.transactions,
                batch.transactions.len() as int,
            ) && batch.transactions.len() > 0
        }),
    decreases n,
{
    if n > 0 {
        lemma_built_within_limit(candidates, verdicts, max_cu, n - 1);
        let before = built_upto(candidates, verdicts, max_cu, n - 1);
        let after = built_upto(candidates, verdicts, max_cu, n);
        let tx = candidates[n - 1];
        lemma_first_fit(before, tx, max_cu, 0);
        assert forall|i: int| 0 <= i < after.len() implies ({
            let batch = #[trigger] after[i];
            batch.cu_used <= max_cu && batch.cu_used == cu_upto(
                batch.transactions,
                batch.transactions.len() as int,
            ) && batch.transactions.len() > 0
        }) by {
            match best_batch(before, tx, verdicts[n - 1], max_cu) {
                Some(at) => {
                    if i == at && verdicts[n - 1].accepted {
                        lemma_cu_push(before[at].transactions, tx);
                    } else {
                        assert(after[i] == before[i]);
                    }
                },
                None => {
                    if i < before.len() {
                        assert(after[i] == before[i]);
                    } else {
                        lemma_cu_push(Seq::empty(), tx);
                    }
                },
            }
        }
    }
}

proof fn lemma_cu_prefix(txs: Seq<CandidateModel>, more: Seq<CandidateModel>, n: int)
    requires
        0 <= n <= txs.len(),
        n <= more.len(),
        forall|i: int| 0 <= i < n ==> txs[i] == more[i],
    ensures
        cu_upto(txs, n) == cu_upto(more, n),
    decreases n,
{
    if n > 0 {
        lemma_cu_prefix(txs, more, n - 1);
    }
}

proof fn lemma_cu_push(txs: Seq<CandidateModel>, tx: CandidateModel)
    ensures
        cu_upto(txs.push(tx), txs.len() as int + 1) == cu_upto(txs, txs.len() as int) + tx.cu_limit,
{
    lemma_cu_prefix(txs, txs.push(tx), txs.len() as int);
}

/// A bundle is added whole or not at all: the batches are as they were, or one
/// of them gained exactly the bundle's transactions.
pub proof fn lemma_bundle_all_or_nothing(
    batches: Seq<CandidateBatch>,
    bundle: Seq<CandidateModel>,
    verdict: Verdict,
    max_cu: u64,
)
    requires
        bundle.len() > 0,
    ensures
        match bundle_placed(batches, bundle, verdict, max_cu) {
            (after, None) => after == batches,
            (after, Some(batch)) => exists|i: int| 0 <= i < after.len() && #[trigger] after[i] == batch
                && batch.transactions == (if i < batches.len() {
                batches[i].transactions + bundle
            } else {
                bundle
            }),
        },
{
    let n = bundle.len() as int;
    lemma_first_bundle_fit(batches, bundle, max_cu, 0);
    assert(bundle.take(n) =~= bundle);
    match bundle_placed(batches, bundle, verdict, max_cu) {
        (after, Some(batch)) => {
            match best_bundle_batch(batches, bundle, verdict, max_cu) {
                Some(i) => {
                    lemma_with_upto_transactions(batches[i], bundle, n);
                    assert(after[i] == batch);
                },
                None => {
                    lemma_with_upto_transactions(CandidateBatch::none(), bundle, n);
                    assert(Seq::<CandidateModel>::empty() + bundle =~= bundle);
                    assert(after[batches.len() as int] == batch);
                },
            }
        },
        (_, None) => {},
    }
}

proof fn lemma_with_upto_transactions(batch: CandidateBatch, bundle: Seq<CandidateModel>, n: int)
    requires
        0 <= n <= bundle.len(),
    ensures
        batch.with_upto(bundle, n).transactions == batch.transactions + bundle.take(n),
    decreases n,
{
    if n > 0 {
        lemma_with_upto_transactions(batch, bundle, n - 1);
        assert(bundle.take(n) =~= bundle.take(n - 1).push(bundle[n - 1]));
        assert(batch.transactions + bundle.take(n) =~= (batch.transactions + bundle.take(n - 1)).push(
            bundle[n - 1],
        ));
    } else {
        assert(batch.transactions + bundle.take(0) =~= batch.transactions);
    }
}

/// A transaction locks an account.
pub open spec fn locks_account(tx: CandidateModel, account: Pubkey) -> bool {
    exists|i: int| 0 <= i < tx.all_locks.len() && (#[trigger] tx.all_locks[i]).0 == account
}

/// A transaction writes no account that an earlier one locks.
pub open spec fn follows(earlier: CandidateModel, later: CandidateModel) -> bool {
    forall|i: int|
        0 <= i < later.all_locks.len() ==> !((#[trigger] later.all_locks[i]).1 && locks_account(
            earlier,
            later.all_locks[i].0,
        ))
}

impl CandidateBatch {
    /// The batch locks what its transactions lock, and none of them writes what
    /// an earlier one locks.
    pub open spec fn compatible(self) -> bool {
        &&& forall|i: int, account: Pubkey|
            #![trigger self.transactions[i], self.locks.contains_key(account)]
            0 <= i < self.transactions.len() && locks_account(self.transactions[i], account)
                ==> self.locks.contains_key(account)
        &&& forall|i: int, j: int|
            #![trigger self.transactions[i], self.transactions[j]]
            0 <= i < j < self.transactions.len() ==> follows(
                self.transactions[i],
                self.transactions[j],
            )
    }
}

proof fn lemma_joined_locks(locks: Map<Pubkey, bool>, more: Seq<(Pubkey, bool)>, n: int)
    requires
        0 <= n <= more.len(),
    ensures
        forall|account: Pubkey| #[trigger]
            locks.contains_key(account) ==> joined_upto(locks, more, n).contains_key(account),
        forall|i: int| 0 <= i < n ==> joined_upto(locks, more, n).contains_key(
            (#[trigger] more[i]).0,
        ),
    decreases n,
{
    if n > 0 {
        lemma_joined_locks(locks, more, n - 1);
    }
}

proof fn lemma_with_compatible(batch: CandidateBatch, tx: CandidateModel, max_cu: u64)
    requires
        batch.compatible(),
        batch.fits(tx.all_locks, tx.cu_limit, max_cu),
    ensures
        batch.with(tx).compatible(),
{
    let after = batch.with(tx);
    let n = batch.transactions.len() as int;
    lemma_joined_locks(batch.locks, tx.all_locks, tx.all_locks.len() as int);
    assert forall|i: int, account: Pubkey|
        #![trigger after.transactions[i], after.locks.contains_key(account)]
        0 <= i < after.transactions.len() && locks_account(
            after.transactions[i],
            account,
        ) implies after.locks.contains_key(account) by {
        if i < n {
            assert(after.transactions[i] == batch.transactions[i]);
            assert(batch.locks.contains_key(account));
        }
    }
    assert forall|i: int, j: int|
        #![trigger after.transactions[i], after.transactions[j]]
        0 <= i < j < after.transactions.len() implies follows(
        after.transactions[i],
        after.transactions[j],
    ) by {
        assert(after.transactions[i] == batch.transactions[i]);
        if j < n {
            assert(after.transactions[j] == batch.transactions[j]);
        } else {
            assert forall|k: int| 0 <= k < tx.all_locks.len() implies !((
            #[trigger] tx.all_locks[k]).1 && locks_account(
                batch.transactions[i],
                tx.all_locks[k].0,
            )) by {
                if tx.all_locks[k].1 && locks_account(batch.transactions[i], tx.all_locks[k].0) {
                    assert(batch.locks.contains_key(tx.all_locks[k].0));
                }
            }
        }
    }
}

proof fn lemma_with_upto_compatible(
    batch: CandidateBatch,
    txs: Seq<CandidateModel>,
    max_cu: u64,
    n: int,
)
    requires
        batch.compatible(),
        batch.fits_all(txs, max_cu),
        0 <= n <= txs.len(),
    ensures
        batch.with_upto(txs, n).compatible(),
        batch.with_upto(txs, n).cu_used == batch.cu_used + cu_upto(txs, n),
        n > 0 ==> batch.with_upto(txs, n).cu_used <= max_cu,
    decreases n,
{
    if n > 0 {
        lemma_with_upto_compatible(batch, txs, max_cu, n - 1);
        assert(batch.with_upto(txs, n - 1).fits(
            txs[n - 1].all_locks,
            txs[n - 1].cu_limit,
            max_cu,
        ));
        lemma_with_compatible(batch.with_upto(txs, n - 1), txs[n - 1], max_cu);
    }
}

/// One of the first `n` candidates is this one, and was accepted.
pub open spec fn accepted_before(
    candidates: Seq<CandidateModel>,
    verdicts: Seq<Verdict>,
    n: int,
    tx: CandidateModel,
) -> bool {
    exists|c: int| 0 <= c < n && verdicts[c].accepted && #[trigger] candidates[c] == tx
}

/// In a batch that is built, no transaction writes an account that an earlier
/// one locks, and every transaction is a candidate that was accepted.
pub proof fn lemma_built_without_conflict(
    candidates: Seq<CandidateModel>,
    verdicts: Seq<Verdict>,
    max_cu: u64,
    n: int,
)
    requires
        0 <= n <= candidates.len(),
        candidates.len() == verdicts.len(),
    ensures
        forall|i: int| 0 <= i < built_upto(candidates, verdicts, max_cu, n).len() ==> (
        #[trigger] built_upto(candidates, verdicts, max_cu, n)[i]).compatible(),
        forall|i: int, j: int|
            #![trigger built_upto(candidates, verdicts, max_cu, n)[i].transactions[j]]
            0 <= i < built_upto(candidates, verdicts, max_cu, n).len() && 0 <= j < built_upto(
                candidates,
                verdicts,
                max_cu,
                n,
            )[i].transactions.len() ==> accepted_before(
                candidates,
                verdicts,
                n,
                built_upto(candidates, verdicts, max_cu, n)[i].transactions[j],
            ),
    decreases n,
{
    if n > 0 {
        lemma_built_without_conflict(candidates, verdicts, max_cu, n - 1);
        let before = built_upto(candidates, verdicts, max_cu, n - 1);
        let after = built_upto(candidates, verdicts, max_cu, n);
        let tx = candidates[n - 1];
        lemma_first_fit(before, tx, max_cu, 0);
        assert forall|i: int| 0 <= i < after.len() implies (#[trigger] after[i]).compatible() by {
            match best_batch(before, tx, verdicts[n - 1], max_cu) {
                Some(at) => {
                    if i == at && verdicts[n - 1].accepted {
                        lemma_with_compatible(before[at], tx, max_cu);
                    } else {
                        assert(after[i] == before[i]);
                    }
                },
                None => {
                    if i < before.len() {
                        assert(after[i] == before[i]);
                    } else {
                        lemma_with_compatible(CandidateBatch::none(), tx, max_cu);
                    }
                },
            }
        }
        assert forall|i: int, j: int|
            #![trigger after[i].transactions[j]]
            0 <= i < after.len() && 0 <= j < after[i].transactions.len() implies accepted_before(
            candidates,
            verdicts,
            n,
            after[i].transactions[j],
        ) by {
            if i < before.len() && j < before[i].transactions.len() {
                let old_tx = before[i].transactions[j];
                assert(after[i].transactions[j] == old_tx);
                assert(accepted_before(candidates, verdicts, n - 1, old_tx));
                let c = choose|c: int|
                    0 <= c < n - 1 && verdicts[c].accepted && #[trigger] candidates[c] == old_tx;
                assert(candidates[c] == after[i].transactions[j]);
            } else {
                assert(candidates[n - 1] == after[i].transactions[j]);
            }
        }
    }
}

/// The transactions of all batches together.
pub open spec fn placed_transactions(batches: Seq<CandidateBatch>) -> Multiset<CandidateModel>
    decreases batches.len(),
{
    if batches.len() == 0 {
        Multiset::empty()
    } else {
        placed_transactions(batches.drop_last()).add(batches.last().transactions.to_multiset())
    }
}

proof fn lemma_one_more_placed(batches: Seq<CandidateBatch>, at: int, tx: CandidateModel)
    requires
        0 <= at < batches.len(),
    ensures
        placed_transactions(batches.update(at, batches[at].with(tx))) == placed_transactions(
            batches,
        ).insert(tx),
    decreases batches.len(),
{
    broadcast use vstd::seq_lib::group_to_multiset_ensures;

    let after = batches.update(at, batches[at].with(tx));
    if at == batches.len() - 1 {
        assert(after.drop_last() =~= batches.drop_last());
        assert(after.last().transactions.to_multiset() =~= batches.last().transactions.to_multiset().insert(
            tx,
        ));
    } else {
        lemma_one_more_placed(batches.drop_last(), at, tx);
        assert(after.drop_last() =~= batches.drop_last().update(at, batches[at].with(tx)));
        assert(after.last() == batches.last());
    }
    assert(placed_transactions(after) =~= placed_transactions(batches).insert(tx));
}

/// The batches that are built hold each candidate at most once, and nothing else.
pub proof fn lemma_built_from_candidates(
    candidates: Seq<CandidateModel>,
    verdicts: Seq<Verdict>,
    max_cu: u64,
    n: int,
)
    requires
        0 <= n <= candidates.len(),
    ensures
        placed_transactions(built_upto(candidates, verdicts, max_cu, n)).subset_of(
            candidates.take(n).to_multiset(),
        ),
    decreases n,
{
    broadcast use vstd::seq_lib::group_to_multiset_ensures;

    if n > 0 {
        lemma_built_from_candidates(candidates, verdicts, max_cu, n - 1);
        let before = built_upto(candidates, verdicts, max_cu, n - 1);
        let after = built_upto(candidates, verdicts, max_cu, n);
        let tx = candidates[n - 1];
        assert(candidates.take(n) =~= candidates.take(n - 1).push(tx));
        assert(candidates.take(n).to_multiset() =~= candidates.take(n - 1).to_multiset().insert(tx));
        lemma_first_fit(before, tx, max_cu, 0);
        if after != before {
            match best_batch(before, tx, verdicts[n - 1], max_cu) {
                Some(at) => {
                    lemma_one_more_placed(before, at, tx);
                },
                None => {
                    let fresh = CandidateBatch::none().with(tx);
                    assert(after == before.push(fresh));
                    assert(after.drop_last() =~= before);
                    assert(fresh.transactions =~= Seq::<CandidateModel>::empty().push(tx));
                    assert(fresh.transactions.to_multiset() =~= Multiset::empty().insert(tx));
                    assert(placed_transactions(after) =~= placed_transactions(before).insert(tx));
                },
            }
        }
    }
}

/// The batch that takes in a bundle stays within its compute units and without
/// conflicts, if it was; and a bundle that needs more units than a batch may have
/// is refused.
pub proof fn lemma_bundle_fits_its_batch(
    batches: Seq<CandidateBatch>,
    bundle: Seq<CandidateModel>,
    verdict: Verdict,
    max_cu: u64,
)
    requires
        bundle.len() > 0,
        forall|i: int| 0 <= i < batches.len() ==> (#[trigger] batches[i]).compatible(),
    ensures
        bundle_placed(batches, bundle, verdict, max_cu).1 matches Some(batch) ==> batch.cu_used
            <= max_cu && batch.compatible(),
        cu_upto(bundle, bundle.len() as int) > max_cu ==> bundle_placed(
            batches,
            bundle,
            verdict,
            max_cu,
        ).1 is None,
{
    let n = bundle.len() as int;
    let none = CandidateBatch::none();
    assert(none.compatible());
    if none.fits_all(bundle, max_cu) {
        lemma_with_upto_compatible(none, bundle, max_cu, n);
        lemma_first_bundle_fit(batches, bundle, max_cu, 0);
        match best_bundle_batch(batches, bundle, verdict, max_cu) {
            Some(i) => {
                lemma_with_upto_compatible(batches[i], bundle, max_cu, n);
            },
            None => {},
        }
    }
}

} // verus!
