//! Queue entries shared by the schedulers, and the order they are kept in.

use vstd::prelude::*;

use crate::ordered::Ordered;

verus! {

/// Priority given to the transactions of a bundle, and to nothing else.
pub const BUNDLE_MARKER: u64 = u64::MAX;

/// Scale of a priority: reward per cost, in millionths.
pub const PRIORITY_MULTIPLIER: u64 = 1_000_000;

/// A queued transaction: its priority, its cost and its key.
///
/// Entries are ordered by priority, then by cost, then by key.
#[derive(Clone, Copy, Debug, PartialEq, Eq, Structural, Hash, PartialOrd, Ord)]
pub struct PriorityId {
    pub priority: u64,
    pub cost: u64,
    pub key: u64,
}

/// Lexicographic order on triples of integers.
pub open spec fn triple_before(a: (u64, u64, u64), b: (u64, u64, u64)) -> bool {
    a.0 < b.0 || (a.0 == b.0 && (a.1 < b.1 || (a.1 == b.1 && a.2 < b.2)))
}

impl PriorityId {
    /// The entry as a triple, which std orders as the entry is ordered.
    pub open spec fn triple(self) -> (u64, u64, u64) {
        (self.priority, self.cost, self.key)
    }

    /// The entry that a triple stands for.
    pub open spec fn of_triple(t: (u64, u64, u64)) -> PriorityId {
        PriorityId { priority: t.0, cost: t.1, key: t.2 }
    }

    /// The entry as a triple.
    pub fn to_triple(&self) -> (r: (u64, u64, u64))
        ensures
            r == self.triple(),
    {
        (self.priority, self.cost, self.key)
    }

    /// The entry that a triple stands for.
    pub fn from_triple(t: (u64, u64, u64)) -> (r: PriorityId)
        ensures
            r == PriorityId::of_triple(t),
    {
        PriorityId { priority: t.0, cost: t.1, key: t.2 }
    }
}

impl View for PriorityId {
    type V = PriorityId;

    open spec fn view(&self) -> PriorityId {
        *self
    }
}

impl Ordered for PriorityId {
    open spec fn before(a: PriorityId, b: PriorityId) -> bool {
        triple_before(a.triple(), b.triple())
    }

    proof fn before_irreflexive(a: PriorityId) {
    }

    proof fn before_transitive(a: PriorityId, b: PriorityId, c: PriorityId) {
    }

    proof fn before_total(a: PriorityId, b: PriorityId) {
    }

    fn is_before(&self, other: &PriorityId) -> (r: bool) {
        self.priority < other.priority || (self.priority == other.priority && (self.cost
            < other.cost || (self.cost == other.cost && self.key < other.key)))
    }
}

/// Of two queued transactions the one of higher priority comes last, at equal
/// priority the dearer one, and at equal cost the one with the higher key: what
/// is last goes first, and what is first makes room.
pub proof fn lemma_transactions_ordered(a: PriorityId, b: PriorityId)
    ensures
        a.priority < b.priority ==> PriorityId::before(a, b),
        a.priority == b.priority && a.cost < b.cost ==> PriorityId::before(a, b),
        a.priority == b.priority && a.cost == b.cost && a.key < b.key ==> PriorityId::before(a, b),
        PriorityId::before(a, b) ==> a.priority <= b.priority && !PriorityId::before(b, a),
        PriorityId::before(a, b) && a.priority == b.priority ==> a.cost <= b.cost,
{
}

/// A bundle: transactions that are executed together or not at all.
///
/// Bundles are ordered by priority, cost, time of arrival and keys.
#[derive(Debug)]
pub struct BundleId {
    pub priority: u64,
    pub cost: u64,
    pub received_at: u64,
    pub keys: Vec<u64>,
}

/// What a bundle holds.
#[verifier::ext_equal]
pub struct BundleModel {
    pub priority: u64,
    pub cost: u64,
    pub received_at: u64,
    pub keys: Seq<u64>,
}

/// `a` and `b` agree up to `i`, where `a` ends or is the smaller.
pub open spec fn keys_less_at(a: Seq<u64>, b: Seq<u64>, i: int) -> bool {
    &&& 0 <= i <= a.len()
    &&& i < b.len()
    &&& i < a.len() ==> a[i] < b[i]
    &&& forall|j: int| 0 <= j < i ==> a[j] == b[j]
}

/// Lexicographic order on sequences of keys.
pub open spec fn keys_before(a: Seq<u64>, b: Seq<u64>) -> bool {
    exists|i: int| keys_less_at(a, b, i)
}

proof fn lemma_keys_total(a: Seq<u64>, b: Seq<u64>, n: int)
    requires
        0 <= n <= a.len(),
        n <= b.len(),
    ensures
        (forall|j: int| 0 <= j < n ==> a[j] == b[j]) || keys_before(a, b) || keys_before(b, a),
    decreases n,
{
    if n > 0 {
        lemma_keys_total(a, b, n - 1);
        if forall|j: int| 0 <= j < n - 1 ==> a[j] == b[j] {
            if a[n - 1] < b[n - 1] {
                assert(keys_less_at(a, b, n - 1));
            } else if b[n - 1] < a[n - 1] {
                assert(keys_less_at(b, a, n - 1));
            }
        }
    }
}

fn keys_is_before(a: &Vec<u64>, b: &Vec<u64>) -> (r: bool)
    ensures
        r == keys_before(a@, b@),
{
    let mut i: usize = 0;
    while i < a.len() && i < b.len()
        invariant
            0 <= i <= a.len(),
            i <= b.len(),
            forall|j: int| 0 <= j < i ==> a@[j] == b@[j],
        decreases a.len() - i,
    {
        if a[i] < b[i] {
            assert(keys_less_at(a@, b@, i as int));
            return true;
        }
        if b[i] < a[i] {
            assert forall|k: int| !keys_less_at(a@, b@, k) by {
                if k > i {
                    assert(a@[i as int] != b@[i as int]);
                }
            }
            return false;
        }
        i = i + 1;
    }
    if i < b.len() {
        assert(keys_less_at(a@, b@, i as int));
        true
    } else {
        false
    }
}

impl View for BundleId {
    type V = BundleModel;

    open spec fn view(&self) -> BundleModel {
        BundleModel {
            priority: self.priority,
            cost: self.cost,
            received_at: self.received_at,
            keys: self.keys@,
        }
    }
}

impl BundleModel {
    /// What bundles are ordered by before their keys.
    pub open spec fn head(self) -> (u64, u64, u64) {
        (self.priority, self.cost, self.received_at)
    }
}

impl Ordered for BundleId {
    open spec fn before(a: BundleModel, b: BundleModel) -> bool {
        triple_before(a.head(), b.head()) || (a.head() == b.head() && keys_before(a.keys, b.keys))
    }

    proof fn before_irreflexive(a: BundleModel) {
    }

    proof fn before_transitive(a: BundleModel, b: BundleModel, c: BundleModel) {
        if a.head() == b.head() && b.head() == c.head() {
            let i = choose|i: int| keys_less_at(a.keys, b.keys, i);
            let j = choose|j: int| keys_less_at(b.keys, c.keys, j);
            let k = if i < j { i } else { j };
            assert(keys_less_at(a.keys, c.keys, k));
        }
    }

    proof fn before_total(a: BundleModel, b: BundleModel) {
        let n = if a.keys.len() < b.keys.len() { a.keys.len() as int } else { b.keys.len() as int };
        lemma_keys_total(a.keys, b.keys, n);
        if forall|j: int| 0 <= j < n ==> a.keys[j] == b.keys[j] {
            if a.keys.len() < b.keys.len() {
                assert(keys_less_at(a.keys, b.keys, n));
            } else if b.keys.len() < a.keys.len() {
                assert(keys_less_at(b.keys, a.keys, n));
            } else {
                assert(a.keys =~= b.keys);
            }
        }
    }

    fn is_before(&self, other: &BundleId) -> (r: bool) {
        if self.priority != other.priority {
            self.priority < other.priority
        } else if self.cost != other.cost {
            self.cost < other.cost
        } else if self.received_at != other.received_at {
            self.received_at < other.received_at
        } else {
            keys_is_before(&self.keys, &other.keys)
        }
    }
}

/// Of two bundles the one of higher priority comes last, at equal priority the
/// dearer one, and at equal cost the later one.
pub proof fn lemma_bundles_ordered(a: BundleModel, b: BundleModel)
    ensures
        a.priority < b.priority ==> BundleId::before(a, b),
        a.priority == b.priority && a.cost < b.cost ==> BundleId::before(a, b),
        a.priority == b.priority && a.cost == b.cost && a.received_at < b.received_at
            ==> BundleId::before(a, b),
        BundleId::before(a, b) ==> a.priority <= b.priority && !BundleId::before(b, a),
        BundleId::before(a, b) && a.priority == b.priority ==> a.cost <= b.cost,
{
    if BundleId::before(a, b) && BundleId::before(b, a) {
        BundleId::before_transitive(a, b, a);
        BundleId::before_irreflexive(a);
    }
}

} // verus!
