//! What holds of both schedulers.

use vstd::prelude::*;

use crate::bridge::{KeyedTransactionMeta, ProgressMessage, TxDecision};
use crate::containers::{greatest, is_greatest, is_least, least, lemma_greatest_exists, lemma_least_exists};
use crate::ordered::{
    increasing, lemma_contains_at_rank, lemma_rank_splits, lemma_with_item, predecessor, rank, Ordered,
};
use crate::queues::{lemma_message_cost_monotone, message_cost};
use crate::scheduler_model::{
    expired, fresh_upto, last_idle, recheck_step, CoreModel, World,
};
use crate::shared::{BundleModel, PriorityId, BUNDLE_MARKER};
use crate::worker::{floored, retryable, ExecutionResponse, ACCOUNT_IN_USE};

verus! {

proof fn lemma_restore_contains(w: World, deferred: Seq<(u64, u64, u64)>, n: int)
    requires
        0 <= n <= deferred.len(),
        increasing::<PriorityId>(w.s.checked),
    ensures
        increasing::<PriorityId>(w.restore_upto(deferred, n).s.checked),
        forall|id: PriorityId| #[trigger]
            w.restore_upto(deferred, n).s.checked.contains(id) <==> (w.s.checked.contains(id)
                || deferred.take(n).contains(id.triple())),
        w.restore_upto(deferred, n).s == (CoreModel {
            checked: w.restore_upto(deferred, n).s.checked,
            ..w.s
        }),
    decreases n,
{
    if n > 0 {
        lemma_restore_contains(w, deferred, n - 1);
        let before = w.restore_upto(deferred, n - 1);
        let added = PriorityId::of_triple(deferred[n - 1]);
        lemma_with_item::<PriorityId>(before.s.checked, added);
        assert(deferred.take(n) =~= deferred.take(n - 1).push(deferred[n - 1]));
        assert forall|id: PriorityId| #[trigger]
            deferred.take(n).contains(id.triple()) <==> (deferred.take(n - 1).contains(id.triple())
                || id == added) by {
            if deferred.take(n - 1).contains(id.triple()) {
                let i = deferred.take(n - 1).index_of(id.triple());
                assert(deferred.take(n)[i] == id.triple());
            }
            if id == added {
                assert(deferred.take(n)[n - 1] == id.triple());
            }
            if deferred.take(n).contains(id.triple()) && id != added {
                let i = deferred.take(n).index_of(id.triple());
                assert(i < n - 1);
                assert(deferred.take(n - 1)[i] == id.triple());
            }
        }
    } else {
        assert(deferred.take(0) =~= Seq::empty());
    }
}

/// When the slot rolls, every deferred transaction waits to be executed again,
/// beside those that waited already; and a round of repeated checks is under
/// way, if anything waits.
pub proof fn lemma_roll_restores_deferred(w: World)
    requires
        w.b.progress.current_slot != w.s.slot,
        increasing::<PriorityId>(w.s.checked),
    ensures
        w.roll_slot().s.slot == w.b.progress.current_slot,
        w.roll_slot().s.deferred == Seq::<(u64, u64, u64)>::empty(),
        increasing::<PriorityId>(w.roll_slot().s.checked),
        forall|id: PriorityId| #[trigger]
            w.roll_slot().s.checked.contains(id) <==> (w.s.checked.contains(id)
                || w.s.deferred.contains(id.triple())),
        w.roll_slot().s.next_recheck is None <==> (w.s.next_recheck is None
            && w.roll_slot().s.checked.len() == 0),
{
    let reported = w.report_roll();
    let deferred = reported.s.deferred;
    assert(deferred == w.s.deferred);
    let moved = World {
        s: CoreModel {
            slot: w.b.progress.current_slot,
            stats: crate::events::SlotStatsEvent { was_leader_ready: false, ..reported.s.stats },
            deferred: Seq::empty(),
            ..reported.s
        },
        ..reported
    };
    lemma_restore_contains(moved, deferred, deferred.len() as int);
    assert(deferred.take(deferred.len() as int) =~= deferred);
}

proof fn lemma_last_idle(checked: Seq<PriorityId>, executing: Map<u64, u64>, n: int)
    requires
        0 <= n <= checked.len(),
    ensures
        match last_idle(checked, executing, n) {
            Some(p) => 0 <= p < n && !executing.contains_key(checked[p].key) && forall|i: int|
                p < i < n ==> executing.contains_key((#[trigger] checked[i]).key),
            None => forall|i: int|
                0 <= i < n ==> executing.contains_key((#[trigger] checked[i]).key),
        },
    decreases n,
{
    if n > 0 {
        lemma_last_idle(checked, executing, n - 1);
    }
}

/// A round of repeated checks goes down the queue: the next entry to check is
/// the highest one, up to where the round has come to, whose transaction does
/// not execute; and the round then has come to the entry right below it.
pub proof fn lemma_recheck_descends(
    checked: Seq<PriorityId>,
    executing: Map<u64, u64>,
    from: PriorityId,
)
    requires
        increasing::<PriorityId>(checked),
    ensures
        match recheck_step(checked, executing, from) {
            (Some(id), next) => {
                &&& checked.contains(id) && !executing.contains_key(id.key)
                &&& id == from || PriorityId::before(id, from)
                &&& next == predecessor::<PriorityId>(checked, id)
                &&& next matches Some(below) ==> PriorityId::before(below, id)
                &&& forall|other: PriorityId|
                    #![trigger checked.contains(other)]
                    checked.contains(other) && !executing.contains_key(other.key) && (other == from
                        || PriorityId::before(other, from)) ==> other == id || PriorityId::before(
                        other,
                        id,
                    )
            },
            (None, next) => next is None && forall|other: PriorityId|
                #![trigger checked.contains(other)]
                checked.contains(other) && (other == from || PriorityId::before(other, from))
                    ==> executing.contains_key(other.key),
        },
{
    lemma_rank_splits::<PriorityId>(checked, from);
    lemma_contains_at_rank::<PriorityId>(checked, from);
    let r = rank::<PriorityId>(checked, from) as int;
    lemma_last_idle(checked, executing, r);
    match recheck_step(checked, executing, from) {
        (Some(id), next) => {
            lemma_contains_at_rank::<PriorityId>(checked, id);
            lemma_rank_splits::<PriorityId>(checked, id);
            if id != from || !checked.contains(from) || executing.contains_key(from.key) {
                let p = last_idle(checked, executing, r).unwrap();
                assert(checked[p] == id);
                assert(checked.contains(id));
                assert(rank::<PriorityId>(checked, id) == p) by {
                    crate::ordered::lemma_rank_unique::<PriorityId>(checked, id, p);
                }
            }
            assert forall|other: PriorityId|
                #![trigger checked.contains(other)]
                checked.contains(other) && !executing.contains_key(other.key) && (other == from
                    || PriorityId::before(other, from)) implies other == id || PriorityId::before(
                other,
                id,
            ) by {
                lemma_contains_at_rank::<PriorityId>(checked, other);
                let k = rank::<PriorityId>(checked, other) as int;
                assert(checked[k] == other);
            }
        },
        (None, _) => {
            assert forall|other: PriorityId|
                #![trigger checked.contains(other)]
                checked.contains(other) && (other == from || PriorityId::before(
                    other,
                    from,
                )) implies executing.contains_key(other.key) by {
                lemma_contains_at_rank::<PriorityId>(checked, other);
                let k = rank::<PriorityId>(checked, other) as int;
                assert(checked[k] == other);
            }
        },
    }
}

/// What waits to be checked for the first time goes first, the highest
/// priority foremost.
pub proof fn lemma_first_checks_first(s: CoreModel)
    requires
        s.unchecked.len() > 0,
    ensures
        s.next_check().1 matches Some(id) && is_greatest(s.unchecked, id.triple())
            && s.next_check().0 == (CoreModel {
            unchecked: s.unchecked.remove(id.triple()),
            ..s
        }),
{
    lemma_greatest_exists(s.unchecked);
    let id = greatest(s.unchecked);
    assert(PriorityId::of_triple(id).triple() == id);
}

/// Of the transactions that wait to be checked, the lowest is evicted.
pub proof fn lemma_lowest_unchecked_evicted(w: World)
    requires
        w.s.unchecked.len() > 0,
    ensures
        is_least(w.s.unchecked, least(w.s.unchecked)),
        w.evict_unchecked().s == (CoreModel {
            unchecked: w.s.unchecked.remove(least(w.s.unchecked)),
            ..w.s
        }),
        w.evict_unchecked().s.unchecked.len() == w.s.unchecked.len() - 1,
{
    lemma_least_exists(w.s.unchecked);
}

proof fn lemma_evict_len(w: World, n: int)
    requires
        0 <= n,
    ensures
        w.evict_unchecked_upto(n).s.unchecked.len() == floored(w.s.unchecked.len() as int, n),
    decreases n,
{
    if n > 0 {
        lemma_evict_len(w, n - 1);
        let before = w.evict_unchecked_upto(n - 1);
        if before.s.unchecked.len() > 0 {
            lemma_lowest_unchecked_evicted(before);
        }
    }
}

/// After room was made, what is about to arrive fits, unless the queue is too
/// small for that alone.
pub proof fn lemma_room_is_made(w: World, additional: nat)
    ensures
        w.make_room(additional).s.unchecked.len() + additional <= w.s.unchecked_capacity
            || w.make_room(additional).s.unchecked.len() == 0,
        w.make_room(additional).s.unchecked.len() <= w.s.unchecked.len(),
{
    lemma_evict_len(
        w,
        floored((w.s.unchecked.len() + additional) as int, w.s.unchecked_capacity as int),
    );
}

/// Of the transactions that wait to be executed, the lowest is evicted.
pub proof fn lemma_lowest_checked_evicted(w: World, other: PriorityId)
    requires
        increasing::<PriorityId>(w.s.checked),
        w.s.checked.contains(other),
        other != w.s.checked.first(),
    ensures
        PriorityId::before(w.s.checked.first(), other),
        w.evict_checked().s.checked == w.s.checked.drop_first(),
        w.evict_checked().s.checked.contains(other),
{
    let i = w.s.checked.index_of(other);
    assert(w.s.checked[i] == other);
    assert(w.s.checked.drop_first()[i - 1] == other);
}

proof fn lemma_fresh(bundles: Seq<BundleModel>, now: u64, expiry: u64, n: int)
    requires
        0 <= n <= bundles.len(),
    ensures
        forall|bundle: BundleModel| #[trigger]
            fresh_upto(bundles, now, expiry, n).contains(bundle) <==> (bundles.take(n).contains(
                bundle,
            ) && !expired(bundle, now, expiry)),
    decreases n,
{
    if n > 0 {
        lemma_fresh(bundles, now, expiry, n - 1);
        let before = fresh_upto(bundles, now, expiry, n - 1);
        let last = bundles[n - 1];
        assert(bundles.take(n) =~= bundles.take(n - 1).push(last));
        assert forall|bundle: BundleModel| #[trigger]
            fresh_upto(bundles, now, expiry, n).contains(bundle) <==> (bundles.take(n).contains(
                bundle,
            ) && !expired(bundle, now, expiry)) by {
            lemma_push_contains(bundles.take(n - 1), last, bundle);
            lemma_push_contains(before, last, bundle);
        }
    } else {
        assert(bundles.take(0) =~= Seq::empty());
    }
}

proof fn lemma_push_contains<A>(s: Seq<A>, x: A, y: A)
    ensures
        s.push(x).contains(y) <==> (s.contains(y) || y == x),
{
    if s.contains(y) {
        let i = s.index_of(y);
        assert(s.push(x)[i] == y);
    }
    if y == x {
        assert(s.push(x)[s.len() as int] == y);
    }
    if s.push(x).contains(y) && y != x {
        let i = s.push(x).index_of(y);
        assert(s[i] == y);
    }
}

/// Bundles that are too old are let go of; all others stay.
pub proof fn lemma_only_expired_dropped(w: World, now: u64, bundle: BundleModel)
    ensures
        w.drop_expired_bundles(now).s.bundles.contains(bundle) <==> (w.s.bundles.contains(bundle)
            && !expired(bundle, now, w.s.runtime.bundle_expiry)),
{
    let n = w.s.bundles.len() as int;
    lemma_fresh(w.s.bundles, now, w.s.runtime.bundle_expiry, n);
    assert(w.s.bundles.take(n) =~= w.s.bundles);
    crate::frames::lemma_expired_steady(
        World {
            s: CoreModel {
                bundles: fresh_upto(w.s.bundles, now, w.s.runtime.bundle_expiry, n),
                ..w.s
            },
            ..w
        },
        w.s.bundles,
        now,
        n,
    );
}

/// The transactions of a bundle are not tried again: whatever became of them,
/// they are let go of and wait nowhere.
pub proof fn lemma_bundles_never_retried(w: World, meta: PriorityId, rep: ExecutionResponse)
    requires
        meta.priority == BUNDLE_MARKER,
        w.s.executing.contains_key(meta.key),
    ensures
        w.executed(meta, rep).1 == TxDecision::Drop,
        w.executed(meta, rep).0.s.checked == w.s.checked,
        w.executed(meta, rep).0.s.deferred == w.s.deferred,
        w.unprocessed(meta).1 == TxDecision::Drop,
        w.unprocessed(meta).0.s.checked == w.s.checked,
        w.unprocessed(meta).0.s.deferred == w.s.deferred,
{
}

/// A transaction that executed, or can never succeed, is let go of; one that
/// was tried in this slot waits for the next one, unless it only met a lock;
/// any other waits to be executed again. The lowest that waits makes room, if
/// there is too much.
pub proof fn lemma_executed_goes_somewhere(w: World, meta: PriorityId, rep: ExecutionResponse)
    requires
        meta.priority != BUNDLE_MARKER,
        w.s.executing.contains_key(meta.key),
        increasing::<PriorityId>(w.s.checked),
    ensures
        ({
            let (after, decision) = w.executed(meta, rep);
            let reason = rep.not_included_reason;
            &&& !after.s.executing.contains_key(meta.key)
            &&& decision == TxDecision::Drop <==> !retryable(reason)
            &&& decision == TxDecision::Keep && rep.execution_slot == w.s.slot && reason
                != ACCOUNT_IN_USE ==> after.s.deferred.contains(meta.triple())
            &&& decision == TxDecision::Keep && (rep.execution_slot != w.s.slot || reason
                == ACCOUNT_IN_USE) ==> after.s.checked.contains(meta) || (forall|other: PriorityId| #[trigger]
                after.s.checked.contains(other) ==> PriorityId::before(meta, other))
        }),
{
    let stopped = w.stop_executing(meta.key).report_execution(meta, rep.not_included_reason);
    lemma_with_item::<PriorityId>(stopped.s.checked, meta);
    let queued = stopped.insert_checked(meta);
    let after = queued.evict_checked();
    if queued.s.checked.len() > 0 {
        let first = queued.s.checked.first();
        if first != meta {
            lemma_lowest_checked_evicted(queued, meta);
        } else {
            assert forall|other: PriorityId| #[trigger]
                after.s.checked.contains(other) implies PriorityId::before(meta, other) by {
                let i = after.s.checked.index_of(other);
                assert(queued.s.checked[i + 1] == other);
                assert(queued.s.checked[0] == meta);
            }
        }
    }
    if !stopped.s.deferred.contains(meta.triple()) {
        lemma_push_contains(stopped.s.deferred, meta.triple(), meta.triple());
    }
}

/// Cost units in flight go down by exactly what the transaction was counted
/// with.
pub proof fn lemma_stop_releases_cost(s: CoreModel, key: u64)
    requires
        s.executing.dom().finite(),
        s.in_flight_cus == crate::queues::total_cost(s.executing),
        s.executing.contains_key(key),
    ensures
        s.execution_stopped(key).in_flight_cus == s.in_flight_cus - s.executing[key],
        s.execution_stopped(key).in_flight_cus == crate::queues::total_cost(
            s.execution_stopped(key).executing,
        ),
{
    crate::queues::lemma_total_cost_remove(s.executing, key);
    crate::queues::lemma_total_cost_nonnegative(s.executing.remove(key));
}

/// Once the validator was seen to lead, it is not seen to become leader again
/// while the slot lasts.
pub proof fn lemma_leader_seen_once(w: World, update: Option<ProgressMessage>, now: u64)
    requires
        w.s.stats.was_leader_ready,
        update matches Some(progress) ==> progress.current_slot == w.s.slot,
        update is None ==> w.b.progress.current_slot == w.s.slot,
    ensures
        !w.note_progress(update, now).becomes_leader(),
        w.note_progress(update, now).roll_slot() == w.note_progress(update, now),
{
}

/// Starting the transactions of a message adds their costs to those in flight.
pub proof fn lemma_start_adds_cost(w: World, batch: Seq<KeyedTransactionMeta>, n: int)
    requires
        0 <= n <= batch.len(),
        w.s.in_flight_cus + message_cost(batch, n) <= u64::MAX,
    ensures
        w.mark_executing_upto(batch, n).s.in_flight_cus == w.s.in_flight_cus + message_cost(
            batch,
            n,
        ),
    decreases n,
{
    if n > 0 {
        lemma_message_cost_monotone(batch, n - 1, n);
        lemma_start_adds_cost(w, batch, n - 1);
    }
}

} // verus!
