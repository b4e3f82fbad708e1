//! Account locks held by the transactions that are in flight.

use vstd::prelude::*;
use std::collections::HashSet;

use crate::ordered::OrderedMap;
use crate::pubkey::Pubkey;

verus! {

broadcast use vstd::std_specs::hash::group_hash_axioms;

/// The transactions that hold one account.
#[derive(Debug)]
pub struct AccountLockers {
    pub writers: HashSet<u64>,
    pub readers: HashSet<u64>,
}

/// Who holds one account, for writing and for reading.
#[verifier::ext_equal]
pub struct LockersModel {
    pub writers: Set<u64>,
    pub readers: Set<u64>,
}

impl View for AccountLockers {
    type V = LockersModel;

    open spec fn view(&self) -> LockersModel {
        LockersModel { writers: self.writers@, readers: self.readers@ }
    }
}

impl LockersModel {
    /// Held by nobody.
    pub open spec fn none() -> LockersModel {
        LockersModel { writers: Set::empty(), readers: Set::empty() }
    }

    /// A write lock needs the account for itself, a read lock tolerates readers.
    pub open spec fn can_lock(self, writable: bool) -> bool {
        self.writers =~= Set::empty() && (writable ==> self.readers =~= Set::empty())
    }

    /// With one more holder.
    pub open spec fn locked(self, key: u64, writable: bool) -> LockersModel {
        if writable {
            LockersModel { writers: self.writers.insert(key), ..self }
        } else {
            LockersModel { readers: self.readers.insert(key), ..self }
        }
    }

    /// With one holder less.
    pub open spec fn unlocked(self, key: u64, writable: bool) -> LockersModel {
        if writable {
            LockersModel { writers: self.writers.remove(key), ..self }
        } else {
            LockersModel { readers: self.readers.remove(key), ..self }
        }
    }

    /// Whether a transaction holds the account.
    pub open spec fn holds(self, key: u64) -> bool {
        self.writers.contains(key) || self.readers.contains(key)
    }

    /// Whether a transaction holds the account for writing, or for reading.
    pub open spec fn holds_as(self, key: u64, writable: bool) -> bool {
        if writable {
            self.writers.contains(key)
        } else {
            self.readers.contains(key)
        }
    }

    /// At most one writer, and no reader beside one.
    pub open spec fn exclusive(self) -> bool {
        forall|a: u64, b: u64| #![trigger self.writers.contains(a), self.holds(b)]
            self.writers.contains(a) && self.holds(b) ==> a == b
    }
}

impl AccountLockers {
    /// Held by nobody.
    pub fn new() -> (r: Self)
        ensures
            r@ == LockersModel::none(),
    {
        AccountLockers { writers: HashSet::new(), readers: HashSet::new() }
    }

    /// Whether nobody holds the account.
    pub fn is_empty(&self) -> (r: bool)
        ensures
            r == (self@ == LockersModel::none()),
    {
        let r: bool = self.writers.is_empty() && self.readers.is_empty();
        assert(r ==> self@ =~= LockersModel::none());
        r
    }

    /// Whether a lock can be granted.
    pub fn can_lock(&self, writable: bool) -> (r: bool)
        ensures
            r == self@.can_lock(writable),
    {
        if writable {
            self.writers.is_empty() && self.readers.is_empty()
        } else {
            self.writers.is_empty()
        }
    }

    /// Whether a transaction holds the account for writing, or for reading.
    pub fn is_held(&self, tx_key: u64, writable: bool) -> (r: bool)
        ensures
            r == self@.holds_as(tx_key, writable),
    {
        if writable {
            self.writers.contains(&tx_key)
        } else {
            self.readers.contains(&tx_key)
        }
    }

    /// Adds a holder.
    pub fn insert(&mut self, tx_key: u64, writable: bool)
        ensures
            final(self)@ == old(self)@.locked(tx_key, writable),
    {
        if writable {
            self.writers.insert(tx_key);
        } else {
            self.readers.insert(tx_key);
        }
    }

    /// Removes a holder.
    pub fn remove(&mut self, tx_key: u64, writable: bool)
        ensures
            final(self)@ == old(self)@.unlocked(tx_key, writable),
    {
        if writable {
            self.writers.remove(&tx_key);
        } else {
            self.readers.remove(&tx_key);
        }
    }
}

/// Who holds which account; an account that nobody holds is absent.
pub type LockTable = Map<Pubkey, LockersModel>;

/// The holders of an account.
pub open spec fn lockers_at(table: LockTable, account: Pubkey) -> LockersModel {
    if table.contains_key(account) {
        table[account]
    } else {
        LockersModel::none()
    }
}

/// Whether every lock can be granted.
pub open spec fn can_lock_all(table: LockTable, locks: Seq<(Pubkey, bool)>) -> bool {
    forall|i: int| 0 <= i < locks.len() ==> lockers_at(table, (#[trigger] locks[i]).0).can_lock(
        locks[i].1,
    )
}

/// The table after a transaction took the first `n` locks.
pub open spec fn lock_upto(table: LockTable, key: u64, locks: Seq<(Pubkey, bool)>, n: int) -> LockTable
    decreases n,
{
    if n <= 0 {
        table
    } else {
        let t = lock_upto(table, key, locks, n - 1);
        let (account, writable) = locks[n - 1];
        t.insert(account, lockers_at(t, account).locked(key, writable))
    }
}

/// The table after a transaction took all its locks.
pub open spec fn lock_all(table: LockTable, key: u64, locks: Seq<(Pubkey, bool)>) -> LockTable {
    lock_upto(table, key, locks, locks.len() as int)
}

/// The table after one lock was given up.
pub open spec fn unlock_one(table: LockTable, key: u64, account: Pubkey, writable: bool) -> LockTable {
    let left = lockers_at(table, account).unlocked(key, writable);
    if left == LockersModel::none() {
        table.remove(account)
    } else {
        table.insert(account, left)
    }
}

/// The table after a transaction gave up the first `n` locks.
pub open spec fn unlock_upto(table: LockTable, key: u64, locks: Seq<(Pubkey, bool)>, n: int) -> LockTable
    decreases n,
{
    if n <= 0 {
        table
    } else {
        unlock_one(unlock_upto(table, key, locks, n - 1), key, locks[n - 1].0, locks[n - 1].1)
    }
}

/// The table after a transaction gave up all its locks.
pub open spec fn unlock_all(table: LockTable, key: u64, locks: Seq<(Pubkey, bool)>) -> LockTable {
    unlock_upto(table, key, locks, locks.len() as int)
}

/// Checks a transaction's locks for conflicts without taking them.
pub fn table_can_lock(table: &OrderedMap<Pubkey, AccountLockers>, locks: &Vec<(Pubkey, bool)>) -> (r:
    bool)
    requires
        table.wf(),
    ensures
        r == can_lock_all(table@, locks@),
{
    let mut i: usize = 0;
    while i < locks.len()
        invariant
            0 <= i <= locks.len(),
            table.wf(),
            forall|j: int| 0 <= j < i ==> lockers_at(table@, (#[trigger] locks@[j]).0).can_lock(
                locks@[j].1,
            ),
        decreases locks.len() - i,
    {
        let lock = locks[i];
        assert(locks@[i as int] == lock);
        match table.get(&lock.0) {
            Some(lockers) => {
                if !lockers.can_lock(lock.1) {
                    return false;
                }
            },
            None => {},
        }
        i = i + 1;
    }
    true
}

/// Takes a transaction's locks without checking for conflicts.
pub fn table_lock(
    table: &mut OrderedMap<Pubkey, AccountLockers>,
    tx_key: u64,
    locks: &Vec<(Pubkey, bool)>,
)
    requires
        old(table).wf(),
    ensures
        final(table).wf(),
        final(table)@ == lock_all(old(table)@, tx_key, locks@),
{
    let mut i: usize = 0;
    while i < locks.len()
        invariant
            0 <= i <= locks.len(),
            table.wf(),
            table@ == lock_upto(old(table)@, tx_key, locks@, i as int),
        decreases locks.len() - i,
    {
        let lock = locks[i];
        let ghost before = table@;
        let mut lockers = match table.remove(&lock.0) {
            Some(lockers) => lockers,
            None => AccountLockers::new(),
        };
        lockers.insert(tx_key, lock.1);
        table.insert_new(lock.0, lockers);
        i = i + 1;
        assert(table@ =~= lock_upto(old(table)@, tx_key, locks@, i as int));
    }
}

/// Gives up all locks of a transaction.
pub fn table_unlock(
    table: &mut OrderedMap<Pubkey, AccountLockers>,
    tx_key: u64,
    locks: &Vec<(Pubkey, bool)>,
)
    requires
        old(table).wf(),
    ensures
        final(table).wf(),
        final(table)@ == unlock_all(old(table)@, tx_key, locks@),
{
    let mut i: usize = 0;
    while i < locks.len()
        invariant
            0 <= i <= locks.len(),
            table.wf(),
            table@ == unlock_upto(old(table)@, tx_key, locks@, i as int),
        decreases locks.len() - i,
    {
        let lock = locks[i];
        let ghost before = table@;
        match table.remove(&lock.0) {
            Some(mut lockers) => {
                lockers.remove(tx_key, lock.1);
                if !lockers.is_empty() {
                    table.insert_new(lock.0, lockers);
                }
            },
            None => {
                assert(LockersModel::none().unlocked(tx_key, lock.1) =~= LockersModel::none());
            },
        }
        i = i + 1;
        assert(table@ =~= unlock_upto(old(table)@, tx_key, locks@, i as int));
    }
}

/// Nobody is recorded as holding an account without holding it.
pub open spec fn no_empty_entry(table: LockTable) -> bool {
    forall|account: Pubkey| #[trigger] table.contains_key(account) ==> table[account]
        != LockersModel::none()
}

/// A transaction holds none of the accounts it names.
pub open spec fn holds_none(table: LockTable, key: u64, locks: Seq<(Pubkey, bool)>) -> bool {
    forall|i: int| 0 <= i < locks.len() ==> !lockers_at(table, (#[trigger] locks[i]).0).holds(key)
}

/// On every account, a writer is alone.
pub open spec fn exclusive_table(table: LockTable) -> bool {
    forall|account: Pubkey| #[trigger] table.contains_key(account) ==> table[account].exclusive()
}

/// Whether one of the first `n` locks is on this account, in this mode.
spec fn named(locks: Seq<(Pubkey, bool)>, n: int, account: Pubkey, writable: bool) -> bool {
    exists|i: int| 0 <= i < n && #[trigger] locks[i] == (account, writable)
}

proof fn lemma_named_step(locks: Seq<(Pubkey, bool)>, n: int, account: Pubkey, writable: bool)
    requires
        0 < n <= locks.len(),
    ensures
        named(locks, n, account, writable) <==> named(locks, n - 1, account, writable) || locks[n - 1]
            == (account, writable),
{
    if named(locks, n, account, writable) {
        let i = choose|i: int| 0 <= i < n && #[trigger] locks[i] == (account, writable);
        assert(locks[i] == (account, writable));
    }
}

proof fn lemma_lock_modes(
    table: LockTable,
    key: u64,
    locks: Seq<(Pubkey, bool)>,
    n: int,
    account: Pubkey,
)
    requires
        0 <= n <= locks.len(),
    ensures
        ({
            let l = lockers_at(table, account);
            let t = lock_upto(table, key, locks, n);
            let written = named(locks, n, account, true);
            let read = named(locks, n, account, false);
            &&& lockers_at(t, account).writers == (if written {
                l.writers.insert(key)
            } else {
                l.writers
            })
            &&& lockers_at(t, account).readers == (if read {
                l.readers.insert(key)
            } else {
                l.readers
            })
            &&& !written && !read ==> (t.contains_key(account) <==> table.contains_key(account))
        }),
    decreases n,
{
    if n > 0 {
        lemma_lock_modes(table, key, locks, n - 1, account);
        lemma_named_step(locks, n, account, true);
        lemma_named_step(locks, n, account, false);
        let l = lockers_at(table, account);
        assert(l.writers.insert(key).insert(key) =~= l.writers.insert(key));
        assert(l.readers.insert(key).insert(key) =~= l.readers.insert(key));
        assert(locks[n - 1] == (locks[n - 1].0, locks[n - 1].1));
    }
}

proof fn lemma_unlock_modes(
    table: LockTable,
    key: u64,
    locks: Seq<(Pubkey, bool)>,
    n: int,
    account: Pubkey,
)
    requires
        0 <= n <= locks.len(),
    ensures
        ({
            let l = lockers_at(table, account);
            let t = unlock_upto(table, key, locks, n);
            let written = named(locks, n, account, true);
            let read = named(locks, n, account, false);
            &&& lockers_at(t, account).writers == (if written {
                l.writers.remove(key)
            } else {
                l.writers
            })
            &&& lockers_at(t, account).readers == (if read {
                l.readers.remove(key)
            } else {
                l.readers
            })
            &&& t.contains_key(account) <==> (if written || read {
                lockers_at(t, account) != LockersModel::none()
            } else {
                table.contains_key(account)
            })
        }),
    decreases n,
{
    if n > 0 {
        lemma_unlock_modes(table, key, locks, n - 1, account);
        lemma_named_step(locks, n, account, true);
        lemma_named_step(locks, n, account, false);
        let l = lockers_at(table, account);
        assert(l.writers.remove(key).remove(key) =~= l.writers.remove(key));
        assert(l.readers.remove(key).remove(key) =~= l.readers.remove(key));
        assert(locks[n - 1] == (locks[n - 1].0, locks[n - 1].1));
    }
}

/// Giving up the locks just taken restores the table.
pub proof fn lemma_unlock_undoes_lock(table: LockTable, key: u64, locks: Seq<(Pubkey, bool)>)
    requires
        no_empty_entry(table),
        holds_none(table, key, locks),
    ensures
        unlock_all(lock_all(table, key, locks), key, locks) == table,
{
    let n = locks.len() as int;
    let locked = lock_all(table, key, locks);
    let restored = unlock_all(locked, key, locks);
    assert forall|account: Pubkey|
        lockers_at(restored, account) == lockers_at(table, account) && (
        #[trigger] restored.contains_key(account) <==> table.contains_key(account)) by {
        lemma_lock_modes(table, key, locks, n, account);
        lemma_unlock_modes(locked, key, locks, n, account);
        let l = lockers_at(table, account);
        if named(locks, n, account, true) || named(locks, n, account, false) {
            let i = choose|i: int| 0 <= i < n && (#[trigger] locks[i]).0 == account;
            assert(0 <= i < n && locks[i].0 == account);
            assert(!l.holds(key));
        }
        assert(l.writers.insert(key).remove(key) =~= l.writers || l.writers.contains(key));
        assert(l.readers.insert(key).remove(key) =~= l.readers || l.readers.contains(key));
        assert(lockers_at(restored, account) =~= l);
    }
    assert forall|account: Pubkey| #[trigger] restored.contains_key(account) implies restored[account]
        == table[account] by {
        assert(lockers_at(restored, account) == lockers_at(table, account));
    }
    assert(restored =~= table);
}

/// Locks that were checked before they were taken leave every writer alone on
/// its account.
pub proof fn lemma_checked_locks_stay_exclusive(
    table: LockTable,
    key: u64,
    locks: Seq<(Pubkey, bool)>,
)
    requires
        exclusive_table(table),
        can_lock_all(table, locks),
    ensures
        exclusive_table(lock_all(table, key, locks)),
{
    let n = locks.len() as int;
    let locked = lock_all(table, key, locks);
    assert forall|account: Pubkey| #[trigger] locked.contains_key(account) implies locked[account].exclusive() by {
        lemma_lock_modes(table, key, locks, n, account);
        let l = lockers_at(table, account);
        if named(locks, n, account, true) {
            let i = choose|i: int| 0 <= i < n && #[trigger] locks[i] == (account, true);
            assert(l.can_lock(locks[i].1));
        }
        if named(locks, n, account, false) {
            let i = choose|i: int| 0 <= i < n && #[trigger] locks[i] == (account, false);
            assert(l.can_lock(locks[i].1));
        }
    }
}

/// After its locks are taken, a transaction holds each of its accounts, as it
/// locks it.
pub proof fn lemma_lock_holds(table: LockTable, key: u64, locks: Seq<(Pubkey, bool)>, i: int)
    requires
        0 <= i < locks.len(),
    ensures
        lockers_at(lock_all(table, key, locks), locks[i].0).holds_as(key, locks[i].1),
{
    lemma_lock_modes(table, key, locks, locks.len() as int, locks[i].0);
    assert(locks[i] == (locks[i].0, locks[i].1));
    assert(named(locks, locks.len() as int, locks[i].0, locks[i].1));
}

/// While a transaction holds its accounts, no other one that writes one of
/// them is granted its locks.
pub proof fn lemma_held_accounts_block_writers(
    table: LockTable,
    key: u64,
    locks: Seq<(Pubkey, bool)>,
    other: Seq<(Pubkey, bool)>,
    i: int,
    j: int,
)
    requires
        0 <= i < locks.len(),
        0 <= j < other.len(),
        locks[i].0 == other[j].0,
        locks[i].1 || other[j].1,
    ensures
        !can_lock_all(lock_all(table, key, locks), other),
{
    let t = lock_all(table, key, locks);
    lemma_lock_holds(table, key, locks, i);
    let l = lockers_at(t, other[j].0);
    if locks[i].1 {
        assert(l.writers.contains(key));
    } else {
        assert(l.readers.contains(key));
    }
    assert(!l.can_lock(other[j].1));
}

} // verus!
