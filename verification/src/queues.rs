//! Costs of the transactions that execute, and the messages that start them.

use vstd::prelude::*;
use std::collections::HashMap;

use crate::bridge::KeyedTransactionMeta;
use crate::shared::{PriorityId, BUNDLE_MARKER};

verus! {

broadcast use vstd::std_specs::hash::group_hash_axioms;

/// The costs of all executing transactions together.
pub open spec fn total_cost(executing: Map<u64, u64>) -> int
    decreases executing.dom().len(),
    when executing.dom().finite()
{
    if executing.dom().len() == 0 {
        0
    } else {
        let key = executing.dom().choose();
        executing[key] + total_cost(executing.remove(key))
    }
}

/// Each transaction contributes its own cost to the total.
pub proof fn lemma_total_cost_remove(executing: Map<u64, u64>, key: u64)
    requires
        executing.dom().finite(),
        executing.contains_key(key),
    ensures
        total_cost(executing) == executing[key] + total_cost(executing.remove(key)),
    decreases executing.dom().len(),
{
    let c = executing.dom().choose();
    assert(executing.dom().contains(key));
    assert(executing.dom().len() > 0);
    assert(executing.dom().contains(c));
    if c != key {
        let without_c = executing.remove(c);
        let without_key = executing.remove(key);
        lemma_total_cost_remove(without_c, key);
        lemma_total_cost_remove(without_key, c);
        assert(without_c.remove(key) =~= without_key.remove(c));
    }
}

/// The total is never negative.
pub proof fn lemma_total_cost_nonnegative(executing: Map<u64, u64>)
    requires
        executing.dom().finite(),
    ensures
        total_cost(executing) >= 0,
    decreases executing.dom().len(),
{
    if executing.dom().len() > 0 {
        let key = executing.dom().choose();
        assert(executing.dom().contains(key));
        lemma_total_cost_nonnegative(executing.remove(key));
    }
}

/// The executing transactions with one more; one that executes already keeps
/// its earlier cost as well.
pub open spec fn with_executing(executing: Map<u64, u64>, key: u64, cost: u64) -> Map<u64, u64> {
    executing.insert(
        key,
        if executing.contains_key(key) {
            (executing[key] + cost) as u64
        } else {
            cost
        },
    )
}

/// One more executing transaction adds its cost to the total.
pub proof fn lemma_with_executing(executing: Map<u64, u64>, key: u64, cost: u64)
    requires
        executing.dom().finite(),
        total_cost(executing) + cost <= u64::MAX,
    ensures
        with_executing(executing, key, cost).dom().finite(),
        total_cost(with_executing(executing, key, cost)) == total_cost(executing) + cost,
        executing.contains_key(key) ==> executing[key] + cost <= u64::MAX,
{
    let after = with_executing(executing, key, cost);
    assert(after.dom() =~= executing.dom().insert(key));
    assert(after.remove(key) =~= executing.remove(key));
    lemma_total_cost_nonnegative(executing.remove(key));
    if executing.contains_key(key) {
        lemma_total_cost_remove(executing, key);
    } else {
        assert(executing.remove(key) =~= executing);
    }
    lemma_total_cost_remove(after, key);
}

/// Adds an executing transaction.
pub fn start_executing(executing: &mut HashMap<u64, u64>, key: u64, cost: u64)
    requires
        old(executing)@.dom().finite(),
        total_cost(old(executing)@) + cost <= u64::MAX,
    ensures
        final(executing)@ == with_executing(old(executing)@, key, cost),
{
    proof {
        lemma_with_executing(executing@, key, cost);
    }
    let earlier: u64 = match executing.get(&key) {
        Some(earlier) => *earlier,
        None => 0,
    };
    executing.insert(key, earlier + cost);
    assert(executing@ =~= with_executing(old(executing)@, key, cost));
}

/// The costs of the first `n` transactions of a message together.
pub open spec fn message_cost(batch: Seq<KeyedTransactionMeta>, n: int) -> int
    decreases n,
{
    if n <= 0 {
        0
    } else {
        message_cost(batch, n - 1) + batch[n - 1].meta.cost
    }
}

/// The costs of a longer part of a message are no less.
pub proof fn lemma_message_cost_monotone(batch: Seq<KeyedTransactionMeta>, n: int, m: int)
    requires
        0 <= n <= m,
    ensures
        0 <= message_cost(batch, n) <= message_cost(batch, m),
    decreases m,
{
    if n < m {
        lemma_message_cost_monotone(batch, n, m - 1);
    } else if n > 0 {
        lemma_message_cost_monotone(batch, n - 1, m - 1);
    }
}

/// What is sent for one transaction of a bundle: the first one carries the cost
/// of the whole bundle.
pub open spec fn bundle_entry(keys: Seq<u64>, cost: u64, i: int) -> KeyedTransactionMeta {
    KeyedTransactionMeta {
        key: keys[i],
        meta: PriorityId {
            priority: BUNDLE_MARKER,
            cost: if i == 0 { cost } else { 0 },
            key: keys[i],
        },
    }
}

/// What is sent for a bundle.
pub open spec fn bundle_message(keys: Seq<u64>, cost: u64) -> Seq<KeyedTransactionMeta> {
    Seq::new(keys.len(), |i: int| bundle_entry(keys, cost, i))
}

/// A message for a bundle costs what the bundle costs.
pub proof fn lemma_bundle_message_cost(keys: Seq<u64>, cost: u64, n: int)
    requires
        0 < n <= keys.len(),
    ensures
        message_cost(bundle_message(keys, cost), n) == cost,
    decreases n,
{
    if n > 1 {
        lemma_bundle_message_cost(keys, cost, n - 1);
    } else {
        assert(message_cost(bundle_message(keys, cost), 0) == 0);
    }
}

/// What is sent for a bundle.
pub fn build_bundle_message(keys: &Vec<u64>, cost: u64) -> (batch: Vec<KeyedTransactionMeta>)
    ensures
        batch@ == bundle_message(keys@, cost),
{
    let mut batch: Vec<KeyedTransactionMeta> = Vec::new();
    let mut i: usize = 0;
    while i < keys.len()
        invariant
            0 <= i <= keys.len(),
            batch@ =~= bundle_message(keys@, cost).take(i as int),
        decreases keys.len() - i,
    {
        let share: u64 = if i == 0 { cost } else { 0 };
        batch.push(
            KeyedTransactionMeta {
                key: keys[i],
                meta: PriorityId { priority: BUNDLE_MARKER, cost: share, key: keys[i] },
            },
        );
        i = i + 1;
    }
    assert(bundle_message(keys@, cost).take(keys@.len() as int) =~= bundle_message(keys@, cost));
    batch
}

} // verus!
