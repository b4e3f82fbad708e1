//! Where a scheduler holds its transactions: each in one place, until it is let
//! go of.

use vstd::prelude::*;
use vstd::multiset::Multiset;

use crate::bridge::{
    ActionModel, BatchModel, BridgeModel, KeyedTransactionMeta, TxDecision, CHECK_FLAGS,
    CHECK_WORKER,
};
use crate::containers::{greatest, least, lemma_greatest_exists, lemma_least_exists};
use crate::events::{EvictReason, SlotStatsEvent, TransactionAction};
use crate::ordered::{
    increasing, lemma_contains_at_rank, lemma_rank_bound, lemma_with_item, rank, with_item,
    without_item,
};
use crate::pubkey::Pubkey;
use crate::scheduler_model::{expired, fresh_upto, scan_upto, CheckStep, CoreModel, World};
use crate::shared::{BundleId, BundleModel, PriorityId, BUNDLE_MARKER};
use crate::worker::{floored, retryable, CheckResponse, ExecutionResponse, ACCOUNT_IN_USE};

verus! {

/// The transactions that wait to be checked.
pub open spec fn unchecked_keys(unchecked: Multiset<(u64, u64, u64)>) -> Set<u64> {
    Set::new(
        |key: u64|
            exists|t: (u64, u64, u64)| #[trigger] unchecked.contains(t) && t.2 == key,
    )
}

/// The transactions that wait to be executed.
pub open spec fn checked_keys(checked: Seq<PriorityId>) -> Set<u64> {
    Set::new(
        |key: u64| exists|i: int| 0 <= i < checked.len() && (#[trigger] checked[i]).key == key,
    )
}

/// The transactions that wait for the next slot.
pub open spec fn deferred_keys(deferred: Seq<(u64, u64, u64)>) -> Set<u64> {
    Set::new(
        |key: u64| exists|i: int| 0 <= i < deferred.len() && (#[trigger] deferred[i]).2 == key,
    )
}

/// The transactions of the bundles that wait to be executed.
pub open spec fn bundle_keys(bundles: Seq<BundleModel>) -> Set<u64> {
    Set::new(
        |key: u64|
            exists|i: int| 0 <= i < bundles.len() && (#[trigger] bundles[i]).keys.contains(key),
    )
}

/// No transaction waits twice to be checked.
pub open spec fn distinct_unchecked(unchecked: Multiset<(u64, u64, u64)>) -> bool {
    &&& forall|t: (u64, u64, u64)| #[trigger] unchecked.count(t) <= 1
    &&& forall|t: (u64, u64, u64), u: (u64, u64, u64)| #[trigger]
        unchecked.contains(t) && #[trigger] unchecked.contains(u) && t.2 == u.2 ==> t == u
}

/// No transaction waits twice to be executed, and they wait in order.
pub open spec fn distinct_checked(checked: Seq<PriorityId>) -> bool {
    &&& increasing::<PriorityId>(checked)
    &&& forall|i: int, j: int|
        0 <= i < j < checked.len() ==> (#[trigger] checked[i]).key != (#[trigger] checked[j]).key
}

/// No transaction waits twice for the next slot.
pub open spec fn distinct_deferred(deferred: Seq<(u64, u64, u64)>) -> bool {
    forall|i: int, j: int|
        0 <= i < j < deferred.len() ==> (#[trigger] deferred[i]).2 != (#[trigger] deferred[j]).2
}

/// No two bundles share a transaction.
pub open spec fn disjoint_bundles(a: BundleModel, b: BundleModel) -> bool {
    forall|key: u64| #[trigger] a.keys.contains(key) ==> !b.keys.contains(key)
}

/// No transaction is in two bundles, or in one bundle twice.
pub open spec fn distinct_bundles(bundles: Seq<BundleModel>) -> bool {
    &&& forall|i: int| 0 <= i < bundles.len() ==> (#[trigger] bundles[i]).keys.no_duplicates()
    &&& forall|i: int, j: int|
        0 <= i < bundles.len() && 0 <= j < bundles.len() && i != j ==> disjoint_bundles(
            #[trigger] bundles[i],
            #[trigger] bundles[j],
        )
}

/// The transactions that a scheduler holds.
pub open spec fn held(s: CoreModel) -> Set<u64> {
    unchecked_keys(s.unchecked).union(checked_keys(s.checked)).union(s.executing.dom()).union(
        deferred_keys(s.deferred),
    ).union(bundle_keys(s.bundles))
}

/// Each transaction that a scheduler holds is in one place.
pub open spec fn tidy(s: CoreModel) -> bool {
    &&& distinct_unchecked(s.unchecked)
    &&& distinct_checked(s.checked)
    &&& distinct_deferred(s.deferred)
    &&& distinct_bundles(s.bundles)
    &&& unchecked_keys(s.unchecked).disjoint(checked_keys(s.checked))
    &&& unchecked_keys(s.unchecked).disjoint(s.executing.dom())
    &&& unchecked_keys(s.unchecked).disjoint(deferred_keys(s.deferred))
    &&& unchecked_keys(s.unchecked).disjoint(bundle_keys(s.bundles))
    &&& checked_keys(s.checked).disjoint(s.executing.dom())
    &&& checked_keys(s.checked).disjoint(deferred_keys(s.deferred))
    &&& checked_keys(s.checked).disjoint(bundle_keys(s.bundles))
    &&& s.executing.dom().disjoint(deferred_keys(s.deferred))
    &&& s.executing.dom().disjoint(bundle_keys(s.bundles))
    &&& deferred_keys(s.deferred).disjoint(bundle_keys(s.bundles))
}

/// The transactions that the scheduler has not let go of.
pub open spec fn live(b: BridgeModel) -> Set<u64> {
    b.transactions.dom()
}

/// Each transaction that the scheduler holds is in one place and was not let go
/// of; and keys are not given twice.
#[verifier::opaque]
pub open spec fn orderly(w: World) -> bool {
    &&& tidy(w.s)
    &&& held(w.s).subset_of(live(w.b))
    &&& forall|key: u64| #[trigger] live(w.b).contains(key) ==> key < w.b.next_key
}

/// The transactions that the scheduler neither holds nor has let go of.
pub open spec fn loose(w: World) -> Set<u64> {
    live(w.b).difference(held(w.s))
}

/// After `a` comes `b`, where all is in order, and no more transactions are
/// loose.
pub open spec fn keeps(a: World, b: World) -> bool {
    orderly(b) && loose(b).subset_of(loose(a))
}

/// Nothing moved.
pub open spec fn same_places(a: World, b: World) -> bool {
    &&& b.s.unchecked == a.s.unchecked
    &&& b.s.checked == a.s.checked
    &&& b.s.executing.dom() == a.s.executing.dom()
    &&& b.s.deferred == a.s.deferred
    &&& b.s.bundles == a.s.bundles
    &&& live(b.b) == live(a.b)
    &&& b.b.next_key == a.b.next_key
}

pub(crate) proof fn lemma_same_places(a: World, b: World)
    requires
        orderly(a),
        same_places(a, b),
    ensures
        orderly(b),
        held(b.s) == held(a.s),
        loose(b) == loose(a),
        keeps(a, b),
{
    reveal(orderly);
}

proof fn lemma_unchecked_insert(m: Multiset<(u64, u64, u64)>, t: (u64, u64, u64))
    requires
        distinct_unchecked(m),
        !unchecked_keys(m).contains(t.2),
    ensures
        distinct_unchecked(m.insert(t)),
        unchecked_keys(m.insert(t)) == unchecked_keys(m).insert(t.2),
{
    let n = m.insert(t);
    assert(!m.contains(t));
    assert forall|u: (u64, u64, u64)| #[trigger] n.contains(u) <==> m.contains(u) || u == t by {}
    assert forall|key: u64| unchecked_keys(n).contains(key) <==> unchecked_keys(m).insert(
        t.2,
    ).contains(key) by {
        if unchecked_keys(m).contains(key) {
            let u = choose|u: (u64, u64, u64)| #[trigger] m.contains(u) && u.2 == key;
            assert(n.contains(u));
        }
        if key == t.2 {
            assert(n.contains(t));
        }
    }
    assert(unchecked_keys(n) =~= unchecked_keys(m).insert(t.2));
    assert forall|u: (u64, u64, u64)| #[trigger] n.count(u) <= 1 by {
        assert(m.count(u) <= 1);
        if u == t {
            assert(m.count(t) == 0);
        }
    }
    assert forall|u: (u64, u64, u64), v: (u64, u64, u64)| #[trigger]
        n.contains(u) && #[trigger] n.contains(v) && u.2 == v.2 implies u == v by {
        if u == t && v != t {
            assert(m.contains(v));
        }
        if v == t && u != t {
            assert(m.contains(u));
        }
    }
}

proof fn lemma_unchecked_remove(m: Multiset<(u64, u64, u64)>, t: (u64, u64, u64))
    requires
        distinct_unchecked(m),
        m.contains(t),
    ensures
        distinct_unchecked(m.remove(t)),
        unchecked_keys(m.remove(t)) == unchecked_keys(m).remove(t.2),
        unchecked_keys(m).contains(t.2),
{
    let n = m.remove(t);
    assert forall|u: (u64, u64, u64)| #[trigger] n.contains(u) <==> m.contains(u) && u != t by {
        assert(m.count(u) <= 1);
    }
    assert forall|key: u64| unchecked_keys(n).contains(key) <==> unchecked_keys(m).remove(
        t.2,
    ).contains(key) by {
        if unchecked_keys(n).contains(key) {
            let u = choose|u: (u64, u64, u64)| #[trigger] n.contains(u) && u.2 == key;
            assert(m.contains(u));
        }
        if unchecked_keys(m).contains(key) && key != t.2 {
            let u = choose|u: (u64, u64, u64)| #[trigger] m.contains(u) && u.2 == key;
            assert(n.contains(u));
        }
    }
    assert(unchecked_keys(n) =~= unchecked_keys(m).remove(t.2));
    assert forall|u: (u64, u64, u64)| #[trigger] n.count(u) <= 1 by {
        assert(m.count(u) <= 1);
    }
}

#[verifier::spinoff_prover]
proof fn lemma_checked_with(checked: Seq<PriorityId>, id: PriorityId)
    requires
        distinct_checked(checked),
        !checked_keys(checked).contains(id.key),
    ensures
        distinct_checked(with_item::<PriorityId>(checked, id)),
        checked_keys(with_item::<PriorityId>(checked, id)) == checked_keys(checked).insert(id.key),
{
    let after = with_item::<PriorityId>(checked, id);
    assert(!checked.contains(id)) by {
        if checked.contains(id) {
            let i = checked.index_of(id);
            assert(checked[i] == id);
        }
    }
    lemma_rank_bound::<PriorityId>(checked, id);
    lemma_with_item::<PriorityId>(checked, id);
    let r = crate::ordered::rank::<PriorityId>(checked, id) as int;
    assert(after == checked.insert(r, id));
    assert forall|key: u64| checked_keys(after).contains(key) <==> checked_keys(checked).insert(
        id.key,
    ).contains(key) by {
        if checked_keys(checked).contains(key) {
            let i = choose|i: int| 0 <= i < checked.len() && (#[trigger] checked[i]).key == key;
            assert(after[if i < r { i } else { i + 1 }].key == key);
        }
        if key == id.key {
            assert(after[r].key == key);
        }
        if checked_keys(after).contains(key) && key != id.key {
            let i = choose|i: int| 0 <= i < after.len() && (#[trigger] after[i]).key == key;
            assert(checked[if i < r { i } else { i - 1 }].key == key);
        }
    }
    assert(checked_keys(after) =~= checked_keys(checked).insert(id.key));
    assert forall|i: int, j: int| 0 <= i < j < after.len() implies (#[trigger] after[i]).key != (
    #[trigger] after[j]).key by {
        if i == r {
            assert(after[j] == checked[j - 1]);
        } else if j == r {
            assert(after[i] == checked[i]);
        } else {
            let a = if i < r { i } else { i - 1 };
            let b = if j < r { j } else { j - 1 };
            assert(after[i] == checked[a] && after[j] == checked[b] && a < b);
        }
    }
}

proof fn lemma_checked_remove(checked: Seq<PriorityId>, at: int)
    requires
        distinct_checked(checked),
        0 <= at < checked.len(),
    ensures
        distinct_checked(checked.remove(at)),
        checked_keys(checked.remove(at)) == checked_keys(checked).remove(checked[at].key),
        checked_keys(checked).contains(checked[at].key),
{
    let after = checked.remove(at);
    let source = |i: int| if i < at { i } else { i + 1 };
    assert forall|i: int, j: int| 0 <= i < j < after.len() implies (#[trigger] after[i]).key != (
    #[trigger] after[j]).key by {
        assert(after[i] == checked[source(i)] && after[j] == checked[source(j)]);
    }
    assert(increasing::<PriorityId>(after)) by {
        assert forall|i: int, j: int| #![trigger after[i], after[j]]
            0 <= i < j < after.len() implies <PriorityId as crate::ordered::Ordered>::before(
            after[i],
            after[j],
        ) by {
            assert(after[i] == checked[source(i)] && after[j] == checked[source(j)]);
        }
    }
    assert forall|key: u64| checked_keys(after).contains(key) <==> checked_keys(checked).remove(
        checked[at].key,
    ).contains(key) by {
        if checked_keys(after).contains(key) {
            let i = choose|i: int| 0 <= i < after.len() && (#[trigger] after[i]).key == key;
            assert(checked[source(i)].key == key);
        }
        if checked_keys(checked).contains(key) && key != checked[at].key {
            let i = choose|i: int| 0 <= i < checked.len() && (#[trigger] checked[i]).key == key;
            assert(after[if i < at { i } else { i - 1 }].key == key);
        }
    }
    assert(checked_keys(after) =~= checked_keys(checked).remove(checked[at].key));
}

proof fn lemma_deferred_push(deferred: Seq<(u64, u64, u64)>, t: (u64, u64, u64))
    requires
        distinct_deferred(deferred),
        !deferred_keys(deferred).contains(t.2),
    ensures
        distinct_deferred(deferred.push(t)),
        deferred_keys(deferred.push(t)) == deferred_keys(deferred).insert(t.2),
{
    let after = deferred.push(t);
    assert forall|key: u64| deferred_keys(after).contains(key) <==> deferred_keys(deferred).insert(
        t.2,
    ).contains(key) by {
        if deferred_keys(deferred).contains(key) {
            let i = choose|i: int| 0 <= i < deferred.len() && (#[trigger] deferred[i]).2 == key;
            assert(after[i].2 == key);
        }
        if key == t.2 {
            assert(after[deferred.len() as int].2 == key);
        }
        if deferred_keys(after).contains(key) && key != t.2 {
            let i = choose|i: int| 0 <= i < after.len() && (#[trigger] after[i]).2 == key;
            assert(deferred[i].2 == key);
        }
    }
    assert(deferred_keys(after) =~= deferred_keys(deferred).insert(t.2));
    assert forall|i: int, j: int| 0 <= i < j < after.len() implies (#[trigger] after[i]).2 != (
    #[trigger] after[j]).2 by {
        if j == deferred.len() {
            assert(deferred[i].2 != t.2);
        }
    }
}

#[verifier::spinoff_prover]
proof fn lemma_bundles_with(bundles: Seq<BundleModel>, bundle: BundleModel)
    requires
        distinct_bundles(bundles),
        bundle.keys.no_duplicates(),
        bundle.keys.to_set().disjoint(bundle_keys(bundles)),
    ensures
        distinct_bundles(with_item::<BundleId>(bundles, bundle)),
        bundle_keys(with_item::<BundleId>(bundles, bundle)) == bundle_keys(bundles).union(
            bundle.keys.to_set(),
        ),
{
    let after = with_item::<BundleId>(bundles, bundle);
    let own = bundle.keys.to_set();
    assert forall|i: int, key: u64| 0 <= i < bundles.len() && #[trigger] bundles[i].keys.contains(
        key,
    ) implies !bundle.keys.contains(key) by {
        assert(bundle_keys(bundles).contains(key));
        assert(bundle.keys.contains(key) ==> own.contains(key));
    }
    if bundles.contains(bundle) {
        let i = bundles.index_of(bundle);
        assert(bundles[i] == bundle);
        assert(own =~= Set::empty()) by {
            assert forall|key: u64| !own.contains(key) by {
                if own.contains(key) {
                    assert(bundles[i].keys.contains(key));
                }
            }
        }
        assert(bundle_keys(bundles) =~= bundle_keys(bundles).union(own));
    } else {
        lemma_rank_bound::<BundleId>(bundles, bundle);
        let r = crate::ordered::rank::<BundleId>(bundles, bundle) as int;
        assert(after == bundles.insert(r, bundle));
        let source = |i: int| if i < r { i } else { i - 1 };
        assert forall|i: int| 0 <= i < after.len() implies (
        #[trigger] after[i]).keys.no_duplicates() by {
            if i != r {
                assert(after[i] == bundles[source(i)]);
            }
        }
        assert forall|i: int, j: int|
            0 <= i < after.len() && 0 <= j < after.len() && i != j implies disjoint_bundles(
            #[trigger] after[i],
            #[trigger] after[j],
        ) by {
            if i == r {
                assert(after[j] == bundles[source(j)]);
                assert forall|key: u64| #[trigger]
                    bundle.keys.contains(key) implies !after[j].keys.contains(key) by {
                    assert(!bundles[source(j)].keys.contains(key));
                }
            } else if j == r {
                assert(after[i] == bundles[source(i)]);
            } else {
                assert(after[i] == bundles[source(i)] && after[j] == bundles[source(j)]);
                assert(source(i) != source(j));
            }
        }
        assert forall|key: u64| bundle_keys(after).contains(key) <==> bundle_keys(bundles).union(
            own,
        ).contains(key) by {
            if bundle_keys(after).contains(key) {
                let i = choose|i: int|
                    0 <= i < after.len() && (#[trigger] after[i]).keys.contains(key);
                if i != r {
                    assert(bundles[source(i)].keys.contains(key));
                }
            }
            if bundle_keys(bundles).contains(key) {
                let i = choose|i: int|
                    0 <= i < bundles.len() && (#[trigger] bundles[i]).keys.contains(key);
                assert(after[if i < r { i } else { i + 1 }].keys.contains(key));
            }
            if own.contains(key) {
                assert(after[r].keys.contains(key));
            }
        }
        assert(bundle_keys(after) =~= bundle_keys(bundles).union(own));
    }
}

proof fn lemma_bundles_remove(bundles: Seq<BundleModel>, at: int)
    requires
        distinct_bundles(bundles),
        0 <= at < bundles.len(),
    ensures
        distinct_bundles(bundles.remove(at)),
        bundle_keys(bundles.remove(at)) == bundle_keys(bundles).difference(
            bundles[at].keys.to_set(),
        ),
        bundles[at].keys.to_set().subset_of(bundle_keys(bundles)),
{
    let after = bundles.remove(at);
    let own = bundles[at].keys.to_set();
    let source = |i: int| if i < at { i } else { i + 1 };
    assert forall|i: int, j: int|
        0 <= i < after.len() && 0 <= j < after.len() && i != j implies disjoint_bundles(
        #[trigger] after[i],
        #[trigger] after[j],
    ) by {
        assert(after[i] == bundles[source(i)] && after[j] == bundles[source(j)]);
        assert(source(i) != source(j));
    }
    assert forall|i: int| 0 <= i < after.len() implies (
    #[trigger] after[i]).keys.no_duplicates() by {
        assert(after[i] == bundles[source(i)]);
    }
    assert forall|key: u64| #[trigger] own.contains(key) implies bundle_keys(bundles).contains(key) by {
        assert(bundles[at].keys.contains(key));
    }
    assert forall|key: u64| bundle_keys(after).contains(key) <==> bundle_keys(bundles).difference(
        own,
    ).contains(key) by {
        if bundle_keys(after).contains(key) {
            let i = choose|i: int| 0 <= i < after.len() && (#[trigger] after[i]).keys.contains(key);
            assert(bundles[source(i)].keys.contains(key));
            assert(disjoint_bundles(bundles[source(i)], bundles[at]));
        }
        if bundle_keys(bundles).contains(key) && !own.contains(key) {
            let i = choose|i: int|
                0 <= i < bundles.len() && (#[trigger] bundles[i]).keys.contains(key);
            assert(i != at);
            assert(after[if i < at { i } else { i - 1 }].keys.contains(key));
        }
    }
    assert(bundle_keys(after) =~= bundle_keys(bundles).difference(own));
}

/// Whoever is let go of was not held.
pub(crate) proof fn lemma_drop(w: World, key: u64)
    requires
        orderly(w),
        !held(w.s).contains(key),
    ensures
        orderly(w.drop_tx(key)),
        held(w.drop_tx(key).s) == held(w.s),
        live(w.drop_tx(key).b) == live(w.b).remove(key),
        loose(w.drop_tx(key)) == loose(w).remove(key),
        keeps(w, w.drop_tx(key)),
{
    reveal(orderly);
    let after = w.drop_tx(key);
    assert(live(after.b) =~= live(w.b).remove(key));
    assert(loose(after) =~= loose(w).remove(key));
}

/// A new transaction has a key of its own.
pub(crate) proof fn lemma_received(w: World, packet: Seq<u8>, simple_vote: bool)
    requires
        orderly(w),
    ensures
        match w.b.received(packet, simple_vote) {
            (b, Some(key)) => {
                let after = World { b, ..w };
                &&& orderly(after)
                &&& !live(w.b).contains(key)
                &&& live(b) == live(w.b).insert(key)
                &&& loose(after) == loose(w).insert(key)
                &&& !held(w.s).contains(key)
            },
            (b, None) => b == w.b,
        },
{
    reveal(orderly);
    match w.b.received(packet, simple_vote) {
        (b, Some(key)) => {
            let after = World { b, ..w };
            assert(live(b) =~= live(w.b).insert(key));
            assert(loose(after) =~= loose(w).insert(key));
        },
        (_, None) => {},
    }
}

/// A new transaction of the scheduler's own has a key of its own.
pub(crate) proof fn lemma_inserted(w: World, packet: Seq<u8>)
    requires
        orderly(w),
    ensures
        match w.b.inserted(packet) {
            (b, Some(key)) => {
                let after = World { b, ..w };
                &&& orderly(after)
                &&& !live(w.b).contains(key)
                &&& live(b) == live(w.b).insert(key)
                &&& loose(after) == loose(w).insert(key)
                &&& !held(w.s).contains(key)
            },
            (b, None) => b == w.b,
        },
{
    lemma_received(w, packet, false);
    match (w.b.received(packet, false), w.b.inserted(packet)) {
        ((received, Some(_)), (b, Some(_))) => {
            lemma_same_places(World { b: received, ..w }, World { b, ..w });
        },
        _ => {},
    }
}

/// A loose transaction waits to be checked.
pub(crate) proof fn lemma_push_unchecked(w: World, id: PriorityId)
    requires
        orderly(w),
        loose(w).contains(id.key),
    ensures
        orderly(w.push_unchecked(id)),
        loose(w.push_unchecked(id)) == loose(w).remove(id.key),
        keeps(w, w.push_unchecked(id)),
{
    reveal(orderly);
    let after = w.push_unchecked(id);
    lemma_unchecked_insert(w.s.unchecked, id.triple());
    assert(held(after.s) =~= held(w.s).insert(id.key));
    assert(loose(after) =~= loose(w).remove(id.key));
}

/// A transaction that waits to be checked is taken out.
proof fn lemma_take_unchecked(w: World, t: (u64, u64, u64))
    requires
        orderly(w),
        w.s.unchecked.contains(t),
    ensures
        ({
            let after = World {
                s: CoreModel { unchecked: w.s.unchecked.remove(t), ..w.s },
                ..w
            };
            &&& orderly(after)
            &&& loose(after) == loose(w).insert(t.2)
            &&& !held(after.s).contains(t.2)
            &&& !loose(w).contains(t.2)
        }),
{
    reveal(orderly);
    let after = World { s: CoreModel { unchecked: w.s.unchecked.remove(t), ..w.s }, ..w };
    lemma_unchecked_remove(w.s.unchecked, t);
    assert(held(after.s) =~= held(w.s).remove(t.2));
    assert(loose(after) =~= loose(w).insert(t.2));
}

/// A loose transaction waits to be executed.
pub(crate) proof fn lemma_insert_checked(w: World, id: PriorityId)
    requires
        orderly(w),
        loose(w).contains(id.key),
    ensures
        orderly(w.insert_checked(id)),
        loose(w.insert_checked(id)) == loose(w).remove(id.key),
        keeps(w, w.insert_checked(id)),
{
    reveal(orderly);
    let queued = w.queue(id.key);
    lemma_same_places(w, queued);
    let after = w.insert_checked(id);
    lemma_checked_with(w.s.checked, id);
    assert(held(after.s) =~= held(w.s).insert(id.key));
    assert(loose(after) =~= loose(w).remove(id.key));
}

/// A transaction that waits to be executed is taken out.
pub(crate) proof fn lemma_take_checked(w: World, at: int, rest: Seq<PriorityId>)
    requires
        orderly(w),
        0 <= at < w.s.checked.len(),
        rest == w.s.checked.remove(at),
    ensures
        ({
            let after = World { s: CoreModel { checked: rest, ..w.s }, ..w };
            let key = w.s.checked[at].key;
            &&& orderly(after)
            &&& loose(after) == loose(w).insert(key)
            &&& !held(after.s).contains(key)
            &&& !loose(w).contains(key)
            &&& live(w.b).contains(key)
        }),
{
    reveal(orderly);
    let after = World { s: CoreModel { checked: rest, ..w.s }, ..w };
    let key = w.s.checked[at].key;
    lemma_checked_remove(w.s.checked, at);
    assert(held(w.s).contains(key));
    assert(held(after.s) =~= held(w.s).remove(key));
    assert(loose(after) =~= loose(w).insert(key));
}

/// Evicting the lowest transaction keeps order.
pub(crate) proof fn lemma_evict_unchecked(w: World)
    requires
        orderly(w),
    ensures
        keeps(w, w.evict_unchecked()),
        loose(w.evict_unchecked()) == loose(w),
{
    if w.s.unchecked.len() > 0 {
        let t = least(w.s.unchecked);
        lemma_least_exists(w.s.unchecked);
        lemma_take_unchecked(w, t);
        let taken = World { s: CoreModel { unchecked: w.s.unchecked.remove(t), ..w.s }, ..w };
        let reported = taken.report_tx(
            t.2,
            t.0,
            TransactionAction::Evict { reason: EvictReason::UncheckedCapacity },
        );
        lemma_same_places(taken, reported);
        lemma_drop(reported, t.2);
        assert(w.evict_unchecked() == reported.drop_tx(t.2));
        assert(loose(reported.drop_tx(t.2)) =~= loose(w));
    }
}

pub(crate) proof fn lemma_evict_unchecked_upto(w: World, n: int)
    requires
        orderly(w),
    ensures
        keeps(w, w.evict_unchecked_upto(n)),
    decreases n,
{
    if n > 0 {
        lemma_evict_unchecked_upto(w, n - 1);
        lemma_evict_unchecked(w.evict_unchecked_upto(n - 1));
    }
}

pub(crate) proof fn lemma_make_room(w: World, additional: nat)
    requires
        orderly(w),
    ensures
        keeps(w, w.make_room(additional)),
{
    let shortfall = floored(
        (w.s.unchecked.len() + additional) as int,
        w.s.unchecked_capacity as int,
    );
    lemma_evict_unchecked_upto(w, shortfall);
    lemma_same_places(w.evict_unchecked_upto(shortfall), w.make_room(additional));
}

/// Evicting the lowest transaction keeps order.
pub(crate) proof fn lemma_evict_checked(w: World)
    requires
        orderly(w),
    ensures
        keeps(w, w.evict_checked()),
        w.s.checked.len() == 0 ==> w.evict_checked() == w,
        w.s.checked.len() > 0 ==> live(w.evict_checked().b) == live(w.b).remove(
            w.s.checked.first().key,
        ),
        w.s.checked.len() > 0 ==> loose(w.evict_checked()) == loose(w),
        w.s.checked.len() > 0 ==> !loose(w).contains(w.s.checked.first().key),
{
    if w.s.checked.len() > 0 {
        let id = w.s.checked.first();
        let rest = w.s.checked.drop_first();
        assert(rest =~= w.s.checked.remove(0));
        lemma_take_checked(w, 0, rest);
        let taken = World { s: CoreModel { checked: rest, ..w.s }, ..w };
        let reported = w.pop_first_checked().report_tx(
            id.key,
            id.priority,
            TransactionAction::Evict { reason: EvictReason::CheckedCapacity },
        );
        lemma_same_places(taken, reported);
        lemma_drop(reported, id.key);
        assert(loose(w.evict_checked()) =~= loose(w));
    }
}

/// A transaction that waits to be executed is taken out by its entry.
pub(crate) proof fn lemma_remove_checked(w: World, id: PriorityId)
    requires
        orderly(w),
    ensures
        orderly(w.remove_checked(id)),
        w.s.checked.contains(id) ==> loose(w.remove_checked(id)) == loose(w).insert(id.key)
            && !held(w.remove_checked(id).s).contains(id.key),
        !w.s.checked.contains(id) ==> w.remove_checked(id) == w,
        live(w.remove_checked(id).b) == live(w.b),
{
    if w.s.checked.contains(id) {
        assert(increasing::<PriorityId>(w.s.checked)) by {
            reveal(orderly);
        }
        lemma_contains_at_rank::<PriorityId>(w.s.checked, id);
        let at = rank::<PriorityId>(w.s.checked, id) as int;
        let rest = without_item::<PriorityId>(w.s.checked, id);
        lemma_take_checked(w, at, rest);
        let taken = World { s: CoreModel { checked: rest, ..w.s }, ..w };
        lemma_same_places(taken, w.remove_checked(id));
    }
}

/// An executing transaction stops.
pub(crate) proof fn lemma_stop_executing(w: World, key: u64)
    requires
        orderly(w),
        w.s.executing.contains_key(key),
    ensures
        orderly(w.stop_executing(key)),
        loose(w.stop_executing(key)) == loose(w).insert(key),
        !held(w.stop_executing(key).s).contains(key),
        !loose(w).contains(key),
{
    reveal(orderly);
    let after = w.stop_executing(key);
    assert(after.s.executing.dom() =~= w.s.executing.dom().remove(key));
    assert(held(w.s).contains(key));
    assert(held(after.s) =~= held(w.s).remove(key));
    assert(loose(after) =~= loose(w).insert(key));
}

/// A loose transaction executes.
pub(crate) proof fn lemma_start_executing(w: World, key: u64, after: World)
    requires
        orderly(w),
        loose(w).contains(key),
        after.s.executing.dom() == w.s.executing.dom().insert(key),
        after.s.unchecked == w.s.unchecked,
        after.s.checked == w.s.checked,
        after.s.deferred == w.s.deferred,
        after.s.bundles == w.s.bundles,
        live(after.b) == live(w.b),
        after.b.next_key == w.b.next_key,
    ensures
        orderly(after),
        loose(after) == loose(w).remove(key),
        keeps(w, after),
{
    reveal(orderly);
    assert(held(after.s) =~= held(w.s).insert(key));
    assert(loose(after) =~= loose(w).remove(key));
}

/// A loose transaction waits for the next slot.
pub(crate) proof fn lemma_defer(w: World, meta: PriorityId)
    requires
        orderly(w),
        loose(w).contains(meta.key),
    ensures
        orderly(w.defer(meta)),
        loose(w.defer(meta)) == loose(w).remove(meta.key),
        keeps(w, w.defer(meta)),
{
    reveal(orderly);
    let t = meta.triple();
    assert(!w.s.deferred.contains(t)) by {
        if w.s.deferred.contains(t) {
            let i = w.s.deferred.index_of(t);
            assert(w.s.deferred[i].2 == meta.key);
            assert(held(w.s).contains(meta.key));
        }
    }
    lemma_deferred_push(w.s.deferred, t);
    let after = w.defer(meta);
    assert(held(after.s) =~= held(w.s).insert(meta.key));
    assert(loose(after) =~= loose(w).remove(meta.key));
}

/// What becomes of a transaction: one that is kept is not loose for that, and
/// one that is to be let go of is not held.
pub open spec fn settles(a: World, key: u64, b: World, decision: TxDecision) -> bool {
    &&& orderly(b)
    &&& match decision {
        TxDecision::Keep => loose(b).subset_of(loose(a)),
        TxDecision::Drop => loose(b).subset_of(loose(a).insert(key)) && !held(b.s).contains(key),
    }
}

/// Letting go of what is to be let go of keeps order.
pub(crate) proof fn lemma_settled(a: World, key: u64, b: World, decision: TxDecision)
    requires
        settles(a, key, b, decision),
    ensures
        keeps(
            a,
            match decision {
                TxDecision::Keep => b,
                TxDecision::Drop => b.drop_tx(key),
            },
        ),
{
    if decision == TxDecision::Drop {
        lemma_drop(b, key);
    }
}

pub(crate) proof fn lemma_unprocessed(w: World, meta: PriorityId)
    requires
        orderly(w),
    ensures
        settles(w, meta.key, w.unprocessed(meta).0, w.unprocessed(meta).1),
{
    if w.s.executing.contains_key(meta.key) {
        let stopped = w.stop_executing(meta.key);
        lemma_stop_executing(w, meta.key);
        if meta.priority != BUNDLE_MARKER {
            let reported = stopped.report_tx(
                meta.key,
                meta.priority,
                TransactionAction::ExecuteUnprocessed,
            );
            let counted = World {
                s: CoreModel {
                    stats: SlotStatsEvent {
                        execute_unprocessed: reported.s.stats.execute_unprocessed.wrapping_add(1),
                        ..reported.s.stats
                    },
                    ..reported.s
                },
                ..reported
            };
            lemma_same_places(stopped, counted);
            assert(live(w.b).contains(meta.key)) by {
                reveal(orderly);
                assert(held(w.s).contains(meta.key));
            }
            lemma_insert_checked(counted, meta);
            assert(w.unprocessed(meta).0 == counted.insert_checked(meta));
        }
    }
}

pub(crate) proof fn lemma_executed(w: World, meta: PriorityId, rep: ExecutionResponse)
    requires
        orderly(w),
        w.s.executing.contains_key(meta.key),
    ensures
        settles(w, meta.key, w.executed(meta, rep).0, w.executed(meta, rep).1),
{
    let stopped = w.stop_executing(meta.key);
    lemma_stop_executing(w, meta.key);
    let reported = stopped.report_execution(meta, rep.not_included_reason);
    lemma_same_places(stopped, reported);
    assert(live(w.b).contains(meta.key)) by {
        reveal(orderly);
        assert(held(w.s).contains(meta.key));
    }
    if !(meta.priority == BUNDLE_MARKER || !retryable(rep.not_included_reason)) {
        lemma_defer(reported, meta);
        lemma_insert_checked(reported, meta);
        let kept = if rep.execution_slot == reported.s.slot && rep.not_included_reason
            != ACCOUNT_IN_USE {
            reported.defer(meta)
        } else {
            reported.insert_checked(meta)
        };
        lemma_evict_checked(kept);
    }
}

/// Restores the deferred transactions, which are loose.
proof fn lemma_restore(w: World, deferred: Seq<(u64, u64, u64)>, n: int)
    requires
        orderly(w),
        0 <= n <= deferred.len(),
        distinct_deferred(deferred),
        deferred_keys(deferred).subset_of(loose(w)),
    ensures
        ({
            let after = w.restore_upto(deferred, n);
            &&& orderly(after)
            &&& loose(after).subset_of(loose(w))
            &&& forall|j: int|
                0 <= j < n ==> !loose(after).contains((#[trigger] deferred[j]).2)
            &&& forall|j: int|
                n <= j < deferred.len() ==> loose(after).contains((#[trigger] deferred[j]).2)
        }),
    decreases n,
{
    if n == 0 {
        assert forall|j: int| 0 <= j < deferred.len() implies loose(w).contains(
            (#[trigger] deferred[j]).2,
        ) by {
            assert(deferred_keys(deferred).contains(deferred[j].2));
        }
    } else {
        lemma_restore(w, deferred, n - 1);
        let before = w.restore_upto(deferred, n - 1);
        lemma_insert_checked(before, PriorityId::of_triple(deferred[n - 1]));
    }
}

/// Moving on to another slot keeps order.
pub(crate) proof fn lemma_roll_slot(w: World)
    requires
        orderly(w),
    ensures
        keeps(w, w.roll_slot()),
{
    if w.b.progress.current_slot != w.s.slot {
        let reported = w.report_roll();
        lemma_same_places(w, reported);
        let deferred = reported.s.deferred;
        let moved = World {
            s: CoreModel {
                slot: w.b.progress.current_slot,
                stats: SlotStatsEvent { was_leader_ready: false, ..reported.s.stats },
                deferred: Seq::empty(),
                ..reported.s
            },
            ..reported
        };
        assert(deferred_keys(moved.s.deferred) =~= Set::empty());
        assert(orderly(moved) && loose(moved) == loose(w).union(deferred_keys(deferred))
            && distinct_deferred(deferred)) by {
            reveal(orderly);
            assert(held(moved.s) =~= held(w.s).difference(deferred_keys(deferred)));
            assert(deferred_keys(deferred).subset_of(held(w.s)));
            assert(loose(moved) =~= loose(w).union(deferred_keys(deferred)));
        }
        let n = deferred.len() as int;
        lemma_restore(moved, deferred, n);
        let restored = moved.restore_upto(deferred, n);
        assert(loose(restored).subset_of(loose(w))) by {
            assert forall|key: u64| #[trigger] loose(restored).contains(key) implies loose(
                w,
            ).contains(key) by {
                if deferred_keys(deferred).contains(key) {
                    let j = choose|j: int|
                        0 <= j < deferred.len() && (#[trigger] deferred[j]).2 == key;
                    assert(!loose(restored).contains(deferred[j].2));
                }
            }
        }
        lemma_same_places(restored, w.roll_slot());
    }
}

/// What holds of a transaction that was sent to be checked: it no longer waits
/// for that, is in no bundle, and where it waits, its entry is the one that was
/// sent.
pub open spec fn was_sent(w: World, meta: PriorityId) -> bool {
    &&& !unchecked_keys(w.s.unchecked).contains(meta.key)
    &&& !bundle_keys(w.s.bundles).contains(meta.key)
    &&& checked_keys(w.s.checked).contains(meta.key) ==> w.s.checked.contains(meta)
    &&& deferred_keys(w.s.deferred).contains(meta.key) ==> w.s.deferred.contains(meta.triple())
}

pub(crate) proof fn lemma_check_step(
    w: World,
    meta: PriorityId,
    rep: CheckResponse,
    resolved_keys: Option<Seq<Pubkey>>,
)
    requires
        orderly(w),
        was_sent(w, meta),
        live(w.b).contains(meta.key),
    ensures
        match w.check_step(meta, rep, resolved_keys) {
            (after, CheckStep::Done(decision)) => {
                &&& settles(w, meta.key, after, decision)
                &&& decision == TxDecision::Keep ==> !loose(after).contains(meta.key)
            },
            (after, CheckStep::Admit) => after == w && loose(w).contains(meta.key),
        },
{
    let key = meta.key;
    if w.s.executing.contains_key(key) {
        assert(held(w.s).contains(key));
    } else if w.s.deferred.contains(meta.triple()) {
        let i = w.s.deferred.index_of(meta.triple());
        assert(w.s.deferred[i].2 == key);
        assert(deferred_keys(w.s.deferred).contains(key));
        assert(held(w.s).contains(key));
    } else {
        assert(!deferred_keys(w.s.deferred).contains(key));
        if w.s.checked.contains(meta) {
            let i = w.s.checked.index_of(meta);
            assert(w.s.checked[i].key == key);
            assert(checked_keys(w.s.checked).contains(key));
            assert(held(w.s).contains(key));
        } else {
            assert(!held(w.s).contains(key));
        }
        match rep.failure() {
            Some(reason) => {
                let reported = w.report_tx(key, meta.priority, TransactionAction::CheckErr { reason });
                let counted = World {
                    s: CoreModel {
                        stats: SlotStatsEvent {
                            check_err: reported.s.stats.check_err.wrapping_add(1),
                            ..reported.s.stats
                        },
                        ..reported.s
                    },
                    ..reported
                };
                lemma_same_places(w, counted);
                lemma_remove_checked(counted, meta);
            },
            None => {
                lemma_same_places(w, w.check_step(meta, rep, resolved_keys).0);
            },
        }
    }
}

/// What lookups resolve to moves nothing.
pub(crate) proof fn lemma_resolved(w: World, key: u64, keys: Option<Seq<Pubkey>>)
    requires
        orderly(w),
    ensures
        ({
            let after = World { b: w.b.resolved(key, keys), ..w };
            &&& orderly(after)
            &&& loose(after) == loose(w)
            &&& held(after.s) == held(w.s)
        }),
{
    let after = World { b: w.b.resolved(key, keys), ..w };
    assert(live(after.b) =~= live(w.b));
    lemma_same_places(w, after);
}

/// The transactions of a message.
pub open spec fn message_keys(batch: Seq<KeyedTransactionMeta>) -> Set<u64> {
    Set::new(|key: u64| exists|i: int| 0 <= i < batch.len() && (#[trigger] batch[i]).key == key)
}

/// No transaction is in a message twice.
pub open spec fn distinct_message(batch: Seq<KeyedTransactionMeta>) -> bool {
    forall|i: int, j: int|
        0 <= i < j < batch.len() ==> (#[trigger] batch[i]).key != (#[trigger] batch[j]).key
}

proof fn lemma_mark_executing(w: World, batch: Seq<KeyedTransactionMeta>, n: int)
    requires
        orderly(w),
        0 <= n <= batch.len(),
        distinct_message(batch),
        message_keys(batch).subset_of(loose(w)),
    ensures
        ({
            let after = w.mark_executing_upto(batch, n);
            &&& orderly(after)
            &&& loose(after).subset_of(loose(w))
            &&& forall|j: int| 0 <= j < n ==> !loose(after).contains((#[trigger] batch[j]).key)
            &&& forall|j: int|
                n <= j < batch.len() ==> loose(after).contains((#[trigger] batch[j]).key)
        }),
    decreases n,
{
    if n == 0 {
        assert forall|j: int| 0 <= j < batch.len() implies loose(w).contains(
            (#[trigger] batch[j]).key,
        ) by {
            assert(message_keys(batch).contains(batch[j].key));
        }
    } else {
        lemma_mark_executing(w, batch, n - 1);
        let before = w.mark_executing_upto(batch, n - 1);
        let after = w.mark_executing_upto(batch, n);
        let key = batch[n - 1].key;
        assert(after.s.executing.dom() =~= before.s.executing.dom().insert(key));
        lemma_start_executing(before, key, after);
    }
}

/// Loose transactions execute.
pub(crate) proof fn lemma_start_batch(w: World, batch: Seq<KeyedTransactionMeta>)
    requires
        orderly(w),
        distinct_message(batch),
        message_keys(batch).subset_of(loose(w)),
    ensures
        orderly(w.start_batch(batch)),
        loose(w.start_batch(batch)).subset_of(loose(w).difference(message_keys(batch))),
{
    let n = batch.len() as int;
    lemma_mark_executing(w, batch, n);
    let marked = w.mark_executing_upto(batch, n);
    lemma_same_places(marked, w.start_batch(batch));
    assert forall|key: u64| #[trigger] loose(marked).contains(key) implies !message_keys(
        batch,
    ).contains(key) by {
        if message_keys(batch).contains(key) {
            let j = choose|j: int| 0 <= j < batch.len() && (#[trigger] batch[j]).key == key;
            assert(!loose(marked).contains(batch[j].key));
        }
    }
}

/// Lets go of transactions that are not held.
proof fn lemma_discard_upto(w: World, keys: Seq<u64>, n: int)
    requires
        orderly(w),
        0 <= n <= keys.len(),
        keys.to_set().disjoint(held(w.s)),
    ensures
        ({
            let after = w.discard_upto(keys, n);
            &&& orderly(after)
            &&& after.s == w.s
            &&& live(after.b).subset_of(live(w.b))
            &&& forall|key: u64| #[trigger]
                live(w.b).contains(key) && !keys.contains(key) ==> live(after.b).contains(key)
            &&& forall|j: int| 0 <= j < n ==> !live(after.b).contains(#[trigger] keys[j])
        }),
    decreases n,
{
    if n > 0 {
        lemma_discard_upto(w, keys, n - 1);
        let before = w.discard_upto(keys, n - 1);
        let key = keys[n - 1];
        assert(keys.contains(key));
        assert(keys.to_set().contains(key));
        lemma_same_places(before, before.dequeue(key));
        lemma_drop(before.dequeue(key), key);
    }
}

/// Lets go of transactions that are not held.
pub(crate) proof fn lemma_discard(w: World, keys: Seq<u64>)
    requires
        orderly(w),
        keys.to_set().disjoint(held(w.s)),
    ensures
        orderly(w.discard(keys)),
        w.discard(keys).s == w.s,
        live(w.discard(keys).b) == live(w.b).difference(keys.to_set()),
        loose(w.discard(keys)) == loose(w).difference(keys.to_set()),
{
    let n = keys.len() as int;
    lemma_discard_upto(w, keys, n);
    let after = w.discard(keys);
    assert forall|key: u64| live(after.b).contains(key) <==> live(w.b).difference(
        keys.to_set(),
    ).contains(key) by {
        if keys.contains(key) {
            let j = keys.index_of(key);
            assert(!live(after.b).contains(keys[j]));
        }
    }
    assert(live(after.b) =~= live(w.b).difference(keys.to_set()));
    assert(loose(after) =~= loose(w).difference(keys.to_set()));
}

/// A bundle is taken out.
pub(crate) proof fn lemma_take_bundle(w: World, at: int, rest: Seq<BundleModel>)
    requires
        orderly(w),
        0 <= at < w.s.bundles.len(),
        rest == w.s.bundles.remove(at),
    ensures
        ({
            let after = World { s: CoreModel { bundles: rest, ..w.s }, ..w };
            let keys = w.s.bundles[at].keys;
            &&& orderly(after)
            &&& keys.no_duplicates()
            &&& loose(after) == loose(w).union(keys.to_set())
            &&& keys.to_set().disjoint(held(after.s))
            &&& keys.to_set().disjoint(loose(w))
        }),
{
    reveal(orderly);
    let after = World { s: CoreModel { bundles: rest, ..w.s }, ..w };
    let own = w.s.bundles[at].keys.to_set();
    lemma_bundles_remove(w.s.bundles, at);
    assert(own.subset_of(held(w.s)));
    assert(held(after.s) =~= held(w.s).difference(own));
    assert(loose(after) =~= loose(w).union(own));
}

/// Making room for a bundle keeps order.
pub(crate) proof fn lemma_evict_bundle(w: World)
    requires
        orderly(w),
    ensures
        orderly(w.evict_bundle()),
        loose(w.evict_bundle()) == loose(w),
{
    if w.s.bundles.len() == w.s.bundle_capacity && w.s.bundles.len() > 0 {
        let rest = w.s.bundles.drop_first();
        assert(rest =~= w.s.bundles.remove(0));
        lemma_take_bundle(w, 0, rest);
        let taken = World { s: CoreModel { bundles: rest, ..w.s }, ..w };
        let keys = w.s.bundles.first().keys;
        lemma_discard(taken, keys);
        assert(loose(w.evict_bundle()) =~= loose(w));
    }
}

/// A bundle of loose transactions waits to be executed.
pub(crate) proof fn lemma_store_bundle(w: World, bundle: BundleModel)
    requires
        orderly(w),
        bundle.keys.no_duplicates(),
        bundle.keys.to_set().subset_of(loose(w)),
    ensures
        orderly(w.store_bundle(bundle)),
        loose(w.store_bundle(bundle)) == loose(w).difference(bundle.keys.to_set()),
{
    let n = bundle.keys.len() as int;
    let action = w.bundle_ingest(bundle.keys);
    let reported = w.report_bundle_upto(bundle.keys, bundle.priority, action, n);
    lemma_report_bundle_places(w, bundle.keys, bundle.priority, action, n);
    lemma_same_places(w, reported);
    lemma_evict_bundle(reported);
    let evicted = reported.evict_bundle();
    let queued = evicted.queue_upto(bundle.keys, n);
    lemma_queue_places(evicted, bundle.keys, n);
    lemma_same_places(evicted, queued);
    let after = w.store_bundle(bundle);
    let own = bundle.keys.to_set();
    reveal(orderly);
    lemma_bundles_with(queued.s.bundles, bundle);
    assert(held(after.s) =~= held(queued.s).union(own));
    assert(loose(after) =~= loose(w).difference(own));
}

proof fn lemma_report_bundle_places(
    w: World,
    keys: Seq<u64>,
    priority: u64,
    action: TransactionAction,
    n: int,
)
    ensures
        same_places(w, w.report_bundle_upto(keys, priority, action, n)),
    decreases n,
{
    if n > 0 {
        lemma_report_bundle_places(w, keys, priority, action, n - 1);
    }
}

proof fn lemma_queue_places(w: World, keys: Seq<u64>, n: int)
    ensures
        same_places(w, w.queue_upto(keys, n)),
    decreases n,
{
    if n > 0 {
        lemma_queue_places(w, keys, n - 1);
    }
}

/// Telling that transactions no longer wait moves nothing.
pub(crate) proof fn lemma_dequeue_places(w: World, keys: Seq<u64>, n: int)
    ensures
        same_places(w, w.dequeue_upto(keys, n)),
    decreases n,
{
    if n > 0 {
        lemma_dequeue_places(w, keys, n - 1);
    }
}

pub(crate) proof fn lemma_scan(w: World, packets: Seq<Seq<u8>>, values: Seq<Option<(u64, u64)>>, n: int)
    requires
        orderly(w),
    ensures
        ({
            let scan = scan_upto(w.b, packets, values, n);
            let after = World { b: scan.b, ..w };
            &&& orderly(after)
            &&& scan.keys.no_duplicates()
            &&& loose(after) == loose(w).union(scan.keys.to_set())
            &&& scan.keys.to_set().disjoint(held(w.s))
        }),
    decreases n,
{
    let scan = scan_upto(w.b, packets, values, n);
    if n <= 0 {
        assert(loose(World { b: scan.b, ..w }) =~= loose(w).union(scan.keys.to_set()));
    } else {
        lemma_scan(w, packets, values, n - 1);
        let before = scan_upto(w.b, packets, values, n - 1);
        let old = World { b: before.b, ..w };
        if before.totals is Some {
            lemma_inserted(old, packets[n - 1]);
            match before.b.inserted(packets[n - 1]) {
                (next, Some(key)) => {
                    assert(!before.keys.contains(key)) by {
                        if before.keys.contains(key) {
                            assert(before.keys.to_set().contains(key));
                            assert(loose(old).contains(key));
                        }
                    }
                    assert(scan.keys == before.keys.push(key));
                    assert(scan.keys.to_set() =~= before.keys.to_set().insert(key)) by {
                        assert forall|k: u64| scan.keys.contains(k) <==> before.keys.contains(k) || k
                            == key by {
                            if before.keys.contains(k) {
                                let i = before.keys.index_of(k);
                                assert(scan.keys[i] == k);
                            }
                            assert(scan.keys[before.keys.len() as int] == key);
                        }
                    }
                    assert(loose(World { b: scan.b, ..w }) =~= loose(w).union(
                        scan.keys.to_set(),
                    ));
                },
                (_, None) => {},
            }
        }
    }
}

proof fn lemma_dropped_upto(w: World, keys: Seq<u64>, n: int)
    requires
        orderly(w),
        0 <= n <= keys.len(),
        keys.to_set().disjoint(held(w.s)),
    ensures
        ({
            let after = World { b: w.b.dropped_upto(keys, n), ..w };
            &&& orderly(after)
            &&& loose(after).subset_of(loose(w))
            &&& forall|j: int| 0 <= j < n ==> !loose(after).contains(#[trigger] keys[j])
        }),
    decreases n,
{
    if n > 0 {
        lemma_dropped_upto(w, keys, n - 1);
        let before = World { b: w.b.dropped_upto(keys, n - 1), ..w };
        assert(keys.contains(keys[n - 1]));
        assert(keys.to_set().contains(keys[n - 1]));
        lemma_drop(before, keys[n - 1]);
        assert(before.drop_tx(keys[n - 1]) == (World { b: w.b.dropped_upto(keys, n), ..w }));
    }
}

/// The transactions of a bundle are taken in, all or none.
pub(crate) proof fn lemma_scan_bundle(
    w: World,
    packets: Seq<Seq<u8>>,
    values: Seq<Option<(u64, u64)>>,
)
    requires
        orderly(w),
    ensures
        match w.scan_bundle(packets, values) {
            (after, Some((keys, _, _))) => {
                &&& orderly(after)
                &&& keys.no_duplicates()
                &&& loose(after) == loose(w).union(keys.to_set())
                &&& keys.to_set().subset_of(loose(after))
            },
            (after, None) => keeps(w, after),
        },
{
    let n = packets.len() as int;
    let scan = scan_upto(w.b, packets, values, n);
    let taken = World { b: scan.b, ..w };
    lemma_scan(w, packets, values, n);
    let m = scan.keys.len() as int;
    lemma_dropped_upto(taken, scan.keys, m);
    let dropped = World { b: scan.b.dropped_all(scan.keys), ..w };
    assert(loose(dropped).subset_of(loose(w))) by {
        assert forall|key: u64| #[trigger] loose(dropped).contains(key) implies loose(w).contains(
            key,
        ) by {
            if scan.keys.contains(key) {
                let j = scan.keys.index_of(key);
                assert(!loose(dropped).contains(scan.keys[j]));
            }
        }
    }
}

/// What stays of the bundles is in place.
proof fn lemma_fresh(bundles: Seq<BundleModel>, now: u64, expiry: u64, n: int)
    requires
        distinct_bundles(bundles),
        0 <= n <= bundles.len(),
    ensures
        ({
            let fresh = fresh_upto(bundles, now, expiry, n);
            &&& distinct_bundles(fresh)
            &&& forall|i: int|
                0 <= i < fresh.len() ==> exists|j: int|
                    0 <= j < n && !expired(bundles[j], now, expiry) && #[trigger] fresh[i]
                        == #[trigger] bundles[j]
            &&& forall|j: int|
                0 <= j < n && !expired(#[trigger] bundles[j], now, expiry) ==> exists|i: int|
                    0 <= i < fresh.len() && #[trigger] fresh[i] == bundles[j]
        }),
    decreases n,
{
    if n > 0 {
        lemma_fresh(bundles, now, expiry, n - 1);
        let before = fresh_upto(bundles, now, expiry, n - 1);
        let fresh = fresh_upto(bundles, now, expiry, n);
        if !expired(bundles[n - 1], now, expiry) {
            let last = before.len() as int;
            assert(fresh[last] == bundles[n - 1]);
            assert forall|i: int| 0 <= i < fresh.len() implies exists|j: int|
                0 <= j < n && !expired(bundles[j], now, expiry) && #[trigger] fresh[i]
                    == #[trigger] bundles[j] by {
                if i < last {
                    assert(fresh[i] == before[i]);
                    let j = choose|j: int|
                        0 <= j < n - 1 && !expired(bundles[j], now, expiry) && before[i]
                            == #[trigger] bundles[j];
                    assert(fresh[i] == bundles[j]);
                } else {
                    assert(fresh[i] == bundles[n - 1]);
                }
            }
            assert forall|j: int|
                0 <= j < n && !expired(#[trigger] bundles[j], now, expiry) implies exists|i: int|
                0 <= i < fresh.len() && #[trigger] fresh[i] == bundles[j] by {
                if j < n - 1 {
                    let i = choose|i: int|
                        0 <= i < before.len() && #[trigger] before[i] == bundles[j];
                    assert(fresh[i] == bundles[j]);
                } else {
                    assert(fresh[last] == bundles[j]);
                }
            }
            assert forall|i: int| 0 <= i < fresh.len() implies (
            #[trigger] fresh[i]).keys.no_duplicates() by {
                let j = choose|j: int|
                    0 <= j < n && !expired(bundles[j], now, expiry) && fresh[i]
                        == #[trigger] bundles[j];
                assert(bundles[j].keys.no_duplicates());
            }
            assert forall|a: int, b: int|
                0 <= a < fresh.len() && 0 <= b < fresh.len() && a != b implies disjoint_bundles(
                #[trigger] fresh[a],
                #[trigger] fresh[b],
            ) by {
                if a < last && b < last {
                    assert(fresh[a] == before[a] && fresh[b] == before[b]);
                } else {
                    let c = if a == last { b } else { a };
                    assert(fresh[c] == before[c]);
                    let j = choose|j: int|
                        0 <= j < n - 1 && !expired(bundles[j], now, expiry) && before[c]
                            == #[trigger] bundles[j];
                    assert(disjoint_bundles(bundles[j], bundles[n - 1]));
                    assert(disjoint_bundles(bundles[n - 1], bundles[j]));
                }
            }
        }
    }
}

proof fn lemma_discard_expired(w: World, bundles: Seq<BundleModel>, now: u64, n: int)
    requires
        orderly(w),
        0 <= n <= bundles.len(),
        forall|j: int|
            0 <= j < bundles.len() && expired(
                #[trigger] bundles[j],
                now,
                w.s.runtime.bundle_expiry,
            ) ==> bundles[j].keys.to_set().disjoint(held(w.s)),
    ensures
        ({
            let after = w.discard_expired_upto(bundles, now, n);
            &&& orderly(after)
            &&& after.s == w.s
            &&& live(after.b).subset_of(live(w.b))
            &&& forall|j: int|
                0 <= j < n && expired(#[trigger] bundles[j], now, w.s.runtime.bundle_expiry)
                    ==> bundles[j].keys.to_set().disjoint(live(after.b))
        }),
    decreases n,
{
    if n > 0 {
        lemma_discard_expired(w, bundles, now, n - 1);
        if expired(bundles[n - 1], now, w.s.runtime.bundle_expiry) {
            lemma_discard(w.discard_expired_upto(bundles, now, n - 1), bundles[n - 1].keys);
        }
    }
}

/// Letting go of old bundles keeps order.
pub(crate) proof fn lemma_drop_expired(w: World, now: u64)
    requires
        orderly(w),
    ensures
        keeps(w, w.drop_expired_bundles(now)),
{
    let bundles = w.s.bundles;
    let n = bundles.len() as int;
    let expiry = w.s.runtime.bundle_expiry;
    let fresh = fresh_upto(bundles, now, expiry, n);
    let kept = World { s: CoreModel { bundles: fresh, ..w.s }, ..w };
    assert(distinct_bundles(bundles)) by {
        reveal(orderly);
    }
    lemma_fresh(bundles, now, expiry, n);
    assert(bundle_keys(fresh).subset_of(bundle_keys(bundles))) by {
        assert forall|key: u64| #[trigger] bundle_keys(fresh).contains(key) implies bundle_keys(
            bundles,
        ).contains(key) by {
            let i = choose|i: int| 0 <= i < fresh.len() && (#[trigger] fresh[i]).keys.contains(key);
            let j = choose|j: int|
                0 <= j < n && !expired(bundles[j], now, expiry) && fresh[i] == #[trigger] bundles[j];
            assert(bundles[j].keys.contains(key));
        }
    }
    assert(orderly(kept)) by {
        reveal(orderly);
    }
    assert forall|j: int| 0 <= j < bundles.len() && expired(#[trigger] bundles[j], now, expiry) implies bundles[j].keys.to_set().disjoint(
        held(kept.s),
    ) by {
        assert forall|key: u64| #[trigger] bundles[j].keys.to_set().contains(key) implies !held(
            kept.s,
        ).contains(key) by {
            reveal(orderly);
            assert(bundles[j].keys.contains(key));
            assert(bundle_keys(bundles).contains(key));
            if bundle_keys(fresh).contains(key) {
                let i = choose|i: int|
                    0 <= i < fresh.len() && (#[trigger] fresh[i]).keys.contains(key);
                let k = choose|k: int|
                    0 <= k < n && !expired(bundles[k], now, expiry) && fresh[i]
                        == #[trigger] bundles[k];
                assert(disjoint_bundles(bundles[j], bundles[k]));
            }
        }
    }
    lemma_discard_expired(kept, bundles, now, n);
    let after = w.drop_expired_bundles(now);
    assert forall|key: u64| #[trigger] loose(after).contains(key) implies loose(w).contains(key) by {
        if held(w.s).contains(key) {
            assert(bundle_keys(bundles).contains(key));
            let j = choose|j: int|
                0 <= j < bundles.len() && (#[trigger] bundles[j]).keys.contains(key);
            if expired(bundles[j], now, expiry) {
                assert(bundles[j].keys.to_set().contains(key));
            } else {
                let i = choose|i: int| 0 <= i < fresh.len() && #[trigger] fresh[i] == bundles[j];
                assert(fresh[i].keys.contains(key));
                assert(bundle_keys(fresh).contains(key));
            }
        }
    }
}

/// The transactions that were sent to be checked.
pub open spec fn asked(actions: Seq<ActionModel>) -> Set<u64> {
    Set::new(
        |key: u64|
            exists|i: int|
                0 <= i < actions.len() && (#[trigger] actions[i] matches ActionModel::Schedule {
                    batch,
                } && batch.flags == CHECK_FLAGS && message_keys(batch.transactions).contains(key)),
    )
}

/// Of the actions, the earlier ones stay.
pub open spec fn extends(a: Seq<ActionModel>, b: Seq<ActionModel>) -> bool {
    a.len() <= b.len() && forall|i: int| 0 <= i < a.len() ==> a[i] == #[trigger] b[i]
}

/// What was asked stays asked.
pub(crate) proof fn lemma_asked_stays(a: Seq<ActionModel>, b: Seq<ActionModel>)
    requires
        extends(a, b),
    ensures
        asked(a).subset_of(asked(b)),
{
    assert forall|key: u64| #[trigger] asked(a).contains(key) implies asked(b).contains(key) by {
        let i = choose|i: int|
            0 <= i < a.len() && (#[trigger] a[i] matches ActionModel::Schedule { batch }
                && batch.flags == CHECK_FLAGS && message_keys(batch.transactions).contains(key));
        assert(b[i] == a[i]);
    }
}

proof fn lemma_fill(w: World, batch: Seq<KeyedTransactionMeta>, n: nat)
    requires
        orderly(w),
    ensures
        ({
            let (s, filled) = w.s.fill_checks(batch, n);
            let after = World { s, ..w };
            &&& orderly(after)
            &&& loose(after).subset_of(loose(w).union(message_keys(filled)))
            &&& message_keys(batch).subset_of(message_keys(filled))
        }),
    decreases n,
{
    if n > 0 {
        let (s, id) = w.s.next_check();
        let next = World { s, ..w };
        if w.s.unchecked.len() > 0 {
            let t = greatest(w.s.unchecked);
            lemma_greatest_exists(w.s.unchecked);
            lemma_take_unchecked(w, t);
            assert(next == (World {
                s: CoreModel { unchecked: w.s.unchecked.remove(t), ..w.s },
                ..w
            }));
        } else {
            lemma_same_places(w, next);
        }
        match id {
            Some(id) => {
                let longer = batch.push(KeyedTransactionMeta { key: id.key, meta: id });
                assert forall|key: u64| #[trigger] message_keys(batch).contains(
                    key,
                ) implies message_keys(longer).contains(key) by {
                    let i = choose|i: int| 0 <= i < batch.len() && (#[trigger] batch[i]).key == key;
                    assert(longer[i].key == key);
                }
                assert(longer[batch.len() as int].key == id.key);
                assert(message_keys(longer).contains(id.key));
                lemma_fill(next, longer, (n - 1) as nat);
            },
            None => {},
        }
    }
}

proof fn lemma_send_checks(w: World, n: nat)
    requires
        orderly(w),
    ensures
        orderly(w.send_checks(n)),
        loose(w.send_checks(n)).subset_of(loose(w).union(asked(w.send_checks(n).b.actions))),
        extends(w.b.actions, w.send_checks(n).b.actions),
    decreases n,
{
    if !(n == 0 || w.check_room() == 0 || w.b.workers[0].len >= w.s.runtime.max_check_batches) {
        let (s, batch) = w.s.fill_checks(Seq::empty(), 64);
        lemma_fill(w, Seq::empty(), 64);
        let filled = World { s, ..w };
        if batch.len() == 0 {
            assert(message_keys(batch) =~= Set::empty());
        } else {
            let message = BatchModel {
                worker: CHECK_WORKER,
                transactions: batch,
                max_working_slot: u64::MAX,
                flags: CHECK_FLAGS,
            };
            let sent = World { s, b: w.b.scheduled(message) };
            lemma_same_places(filled, sent);
            let last = w.b.actions.len() as int;
            assert(sent.b.actions[last] == ActionModel::Schedule { batch: message });
            assert forall|key: u64| #[trigger] message_keys(batch).contains(key) implies asked(
                sent.b.actions,
            ).contains(key) by {
                assert(sent.b.actions[last] == ActionModel::Schedule { batch: message });
            }
            lemma_send_checks(sent, (n - 1) as nat);
            lemma_asked_stays(sent.b.actions, w.send_checks(n).b.actions);
        }
    }
}

/// Sending what there is to check keeps order: what becomes loose is being
/// checked.
pub(crate) proof fn lemma_schedule_checks(w: World)
    requires
        orderly(w),
    ensures
        orderly(w.schedule_checks()),
        loose(w.schedule_checks()).subset_of(loose(w).union(asked(w.schedule_checks().b.actions))),
{
    lemma_send_checks(w, w.check_room());
    lemma_same_places(w.send_checks(w.check_room()), w.schedule_checks());
}

} // verus!
