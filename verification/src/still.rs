//! Steps that neither start nor stop anything.

use vstd::prelude::*;

use crate::auction_model::{pick_upto, picked_message, AuctionWorld, SEARCH_LIMIT};
use crate::batch_model::BatchWorld;
use crate::bridge::{
    BatchModel, BridgeModel, KeyedTransactionMeta, CHECK_FLAGS, CHECK_WORKER, EXECUTE_BUNDLE_FLAGS,
    EXECUTE_FLAGS,
};
use crate::events::{SlotStatsEvent, TransactionAction};
use crate::pubkey::Pubkey;
use crate::queues::bundle_message;
use crate::scheduler_model::{fresh_upto, CoreModel, World};
use crate::shared::{BundleModel, PriorityId};
use crate::worker::{floored, CheckResponse, ExecutionResponse};

verus! {

/// No transaction of `b` is new, and each is as it was.
pub open spec fn transactions_kept(a: BridgeModel, b: BridgeModel) -> bool {
    forall|key: u64| #[trigger]
        b.transactions.contains_key(key) ==> a.transactions.contains_key(key)
            && b.transactions[key] == a.transactions[key]
}

/// Between `a` and `b` nothing came in, and what executes is the same.
pub open spec fn still(a: World, b: World) -> bool {
    &&& b.s.filter_keys == a.s.filter_keys
    &&& b.s.executing == a.s.executing
    &&& transactions_kept(a.b, b.b)
}

pub(crate) proof fn lemma_still_chain(a: World, b: World, c: World)
    requires
        still(a, b),
        still(b, c),
    ensures
        still(a, c),
{
    assert forall|key: u64| #[trigger] c.b.transactions.contains_key(
        key,
    ) implies a.b.transactions.contains_key(key) && c.b.transactions[key]
        == a.b.transactions[key] by {
        assert(b.b.transactions.contains_key(key));
    }
}

pub(crate) proof fn lemma_evict_still(w: World, n: int)
    ensures
        still(w, w.evict_unchecked_upto(n)),
    decreases n,
{
    if n > 0 {
        lemma_evict_still(w, n - 1);
    }
}

pub(crate) proof fn lemma_make_room_still(w: World, additional: nat)
    ensures
        still(w, w.make_room(additional)),
{
    lemma_evict_still(
        w,
        floored((w.s.unchecked.len() + additional) as int, w.s.unchecked_capacity as int),
    );
}

pub(crate) proof fn lemma_restore_still(w: World, deferred: Seq<(u64, u64, u64)>, n: int)
    ensures
        still(w, w.restore_upto(deferred, n)),
    decreases n,
{
    if n > 0 {
        lemma_restore_still(w, deferred, n - 1);
    }
}

pub(crate) proof fn lemma_roll_still(w: World)
    ensures
        still(w, w.roll_slot()),
{
    if w.b.progress.current_slot != w.s.slot {
        let reported = w.report_roll();
        let moved = World {
            s: CoreModel {
                slot: w.b.progress.current_slot,
                stats: SlotStatsEvent { was_leader_ready: false, ..reported.s.stats },
                deferred: Seq::empty(),
                ..reported.s
            },
            ..reported
        };
        let n = reported.s.deferred.len() as int;
        lemma_restore_still(moved, reported.s.deferred, n);
        assert(still(w, moved));
        lemma_still_chain(w, moved, moved.restore_upto(reported.s.deferred, n));
    }
}

pub(crate) proof fn lemma_discard_still(w: World, keys: Seq<u64>, n: int)
    ensures
        still(w, w.discard_upto(keys, n)),
    decreases n,
{
    if n > 0 {
        lemma_discard_still(w, keys, n - 1);
    }
}

pub(crate) proof fn lemma_expired_still(w: World, bundles: Seq<BundleModel>, now: u64, n: int)
    ensures
        still(w, w.discard_expired_upto(bundles, now, n)),
    decreases n,
{
    if n > 0 {
        lemma_expired_still(w, bundles, now, n - 1);
        let keys = bundles[n - 1].keys;
        lemma_discard_still(w.discard_expired_upto(bundles, now, n - 1), keys, keys.len() as int);
    }
}

pub(crate) proof fn lemma_drop_expired_still(w: World, now: u64)
    ensures
        still(w, w.drop_expired_bundles(now)),
{
    let n = w.s.bundles.len() as int;
    let kept = World {
        s: CoreModel {
            bundles: fresh_upto(w.s.bundles, now, w.s.runtime.bundle_expiry, n),
            ..w.s
        },
        ..w
    };
    lemma_expired_still(kept, w.s.bundles, now, n);
    assert(still(w, kept));
    lemma_still_chain(w, kept, kept.discard_expired_upto(w.s.bundles, now, n));
}

pub(crate) proof fn lemma_report_bundle_still(
    w: World,
    keys: Seq<u64>,
    priority: u64,
    action: TransactionAction,
    n: int,
)
    ensures
        still(w, w.report_bundle_upto(keys, priority, action, n)),
    decreases n,
{
    if n > 0 {
        lemma_report_bundle_still(w, keys, priority, action, n - 1);
    }
}

pub(crate) proof fn lemma_queue_still(w: World, keys: Seq<u64>, n: int)
    ensures
        still(w, w.queue_upto(keys, n)),
        still(w, w.dequeue_upto(keys, n)),
    decreases n,
{
    if n > 0 {
        lemma_queue_still(w, keys, n - 1);
    }
}

pub(crate) proof fn lemma_store_bundle_still(w: World, bundle: BundleModel)
    ensures
        still(w, w.store_bundle(bundle)),
{
    let n = bundle.keys.len() as int;
    let action = w.bundle_ingest(bundle.keys);
    let reported = w.report_bundle_upto(bundle.keys, bundle.priority, action, n);
    lemma_report_bundle_still(w, bundle.keys, bundle.priority, action, n);
    let evicted = reported.evict_bundle();
    let taken = World {
        s: CoreModel { bundles: reported.s.bundles.drop_first(), ..reported.s },
        ..reported
    };
    let keys = reported.s.bundles.first().keys;
    lemma_discard_still(taken, keys, keys.len() as int);
    assert(still(reported, taken));
    lemma_still_chain(reported, taken, taken.discard(keys));
    lemma_still_chain(w, reported, evicted);
    lemma_queue_still(evicted, bundle.keys, n);
    lemma_still_chain(w, evicted, evicted.queue_upto(bundle.keys, n));
}

pub(crate) proof fn lemma_fill_still(s: CoreModel, batch: Seq<KeyedTransactionMeta>, n: nat)
    ensures
        s.fill_checks(batch, n).0.filter_keys == s.filter_keys,
        s.fill_checks(batch, n).0.executing == s.executing,
    decreases n,
{
    if n > 0 {
        match s.next_check() {
            (next, Some(id)) => {
                lemma_fill_still(
                    next,
                    batch.push(KeyedTransactionMeta { key: id.key, meta: id }),
                    (n - 1) as nat,
                );
            },
            (_, None) => {},
        }
    }
}

pub(crate) proof fn lemma_send_checks_still(w: World, n: nat)
    ensures
        still(w, w.send_checks(n)),
    decreases n,
{
    if !(n == 0 || w.check_room() == 0 || w.b.workers[0].len >= w.s.runtime.max_check_batches) {
        let (s, batch) = w.s.fill_checks(Seq::empty(), 64);
        lemma_fill_still(w.s, Seq::empty(), 64);
        if batch.len() > 0 {
            lemma_send_checks_still(
                World {
                    s,
                    b: w.b.scheduled(
                        BatchModel {
                            worker: CHECK_WORKER,
                            transactions: batch,
                            max_working_slot: u64::MAX,
                            flags: CHECK_FLAGS,
                        },
                    ),
                },
                (n - 1) as nat,
            );
        }
    }
}

pub(crate) proof fn lemma_remove_checked_still(w: World, txs: Seq<PriorityId>, n: int)
    ensures
        still(w, w.remove_checked_upto(txs, n)),
    decreases n,
{
    if n > 0 {
        lemma_remove_checked_still(w, txs, n - 1);
    }
}

pub(crate) proof fn lemma_check_step_still(
    w: World,
    meta: PriorityId,
    rep: CheckResponse,
    resolved_keys: Option<Seq<Pubkey>>,
)
    ensures
        still(w, w.check_step(meta, rep, resolved_keys).0),
{
}

pub(crate) proof fn lemma_insert_with_capacity_still(w: World, meta: PriorityId)
    ensures
        still(w, w.insert_with_capacity(meta).0),
{
    let evicted = w.evict_checked().count_check_evict();
    assert(still(w, evicted));
    assert(still(evicted, evicted.insert_checked(meta)));
    lemma_still_chain(w, evicted, evicted.insert_checked(meta));
}

pub(crate) proof fn lemma_schedule_checks_still(w: World)
    ensures
        still(w, w.schedule_checks()),
{
    lemma_send_checks_still(w, w.check_room());
}

/// Taking locks changes nothing but the locks.
pub(crate) proof fn lemma_lock_upto_world(b: BatchWorld, keys: Seq<u64>, n: int)
    ensures
        b.lock_upto(keys, n).w == b.w,
    decreases n,
{
    if n > 0 {
        lemma_lock_upto_world(b, keys, n - 1);
    }
}

pub(crate) proof fn lemma_batch_check_still(
    b: BatchWorld,
    meta: PriorityId,
    rep: CheckResponse,
    resolved_keys: Option<Seq<Pubkey>>,
)
    ensures
        still(b.w, b.on_check(meta, rep, resolved_keys).0.w),
{
    lemma_check_step_still(b.w, meta, rep, resolved_keys);
    let w = b.w.check_step(meta, rep, resolved_keys).0;
    let evicted = w.evict_checked().count_check_evict();
    assert(still(w, evicted));
    let after = b.on_check(meta, rep, resolved_keys).0.w;
    assert(still(w, after) || still(evicted, after));
    if still(evicted, after) {
        lemma_still_chain(w, evicted, after);
    }
    lemma_still_chain(b.w, w, after);
}

pub(crate) proof fn lemma_batch_best_still(b: BatchWorld, budget: u64, worker: usize)
    ensures
        still(b.w, b.try_best(budget, worker).0.w),
{
    if b.w.s.bundles.len() > 0 {
        let keys = b.w.s.bundles.last().keys;
        lemma_lock_upto_world(b, keys, keys.len() as int);
    }
}

pub(crate) proof fn lemma_auction_check_still(
    a: AuctionWorld,
    meta: PriorityId,
    rep: CheckResponse,
    resolved_keys: Option<Seq<Pubkey>>,
)
    ensures
        still(a.w, a.on_check(meta, rep, resolved_keys).0.w),
{
    lemma_check_step_still(a.w, meta, rep, resolved_keys);
    let w = a.w.check_step(meta, rep, resolved_keys).0;
    lemma_insert_with_capacity_still(w, meta);
    let placed = w.insert_with_capacity(meta).0;
    lemma_still_chain(a.w, w, placed);
    let after = a.on_check(meta, rep, resolved_keys).0.w;
    assert(still(w, after) || still(placed, after));
    if still(placed, after) {
        lemma_still_chain(a.w, placed, after);
    } else {
        lemma_still_chain(a.w, w, after);
    }
}

pub(crate) proof fn lemma_auction_transactions_still(a: AuctionWorld, budget: u64, worker: usize)
    ensures
        still(a.w, a.try_transactions(budget, worker).0.w),
{
    let checked = a.w.s.checked;
    let n = if checked.len() < SEARCH_LIMIT {
        checked.len() as int
    } else {
        SEARCH_LIMIT as int
    };
    let picked = pick_upto(a.held, a.w.b, checked, budget, n).picked;
    let sent = World {
        b: a.w.b.scheduled(
            BatchModel {
                worker,
                transactions: picked_message(picked),
                max_working_slot: (a.w.b.progress.current_slot + 1) as u64,
                flags: EXECUTE_FLAGS,
            },
        ),
        ..a.w
    };
    assert(still(a.w, sent));
    lemma_remove_checked_still(sent, picked, picked.len() as int);
    lemma_still_chain(a.w, sent, sent.remove_checked_upto(picked, picked.len() as int));
}

pub(crate) proof fn lemma_auction_bundle_still(a: AuctionWorld, budget: u64, worker: usize)
    ensures
        still(a.w, a.try_bundle(budget, worker).0.w),
{
    if a.w.s.bundles.len() > 0 {
        let bundle = a.w.s.bundles.last();
        let n = bundle.keys.len() as int;
        let sent = World {
            b: a.w.b.scheduled(
                BatchModel {
                    worker,
                    transactions: bundle_message(bundle.keys, bundle.cost),
                    max_working_slot: (a.w.b.progress.current_slot + 1) as u64,
                    flags: EXECUTE_BUNDLE_FLAGS,
                },
            ),
            ..a.w
        };
        assert(still(a.w, sent));
        lemma_queue_still(sent, bundle.keys, n);
        lemma_still_chain(a.w, sent, sent.dequeue_upto(bundle.keys, n));
    }
}

pub(crate) proof fn lemma_auction_best_still(a: AuctionWorld, budget: u64, worker: usize)
    ensures
        still(a.w, a.try_best(budget, worker).0.w),
{
    let bundled = a.try_bundle(budget, worker).0;
    let started = a.try_transactions(budget, worker).0;
    lemma_auction_bundle_still(a, budget, worker);
    lemma_auction_transactions_still(a, budget, worker);
    lemma_auction_transactions_still(bundled, budget, worker);
    lemma_auction_bundle_still(started, budget, worker);
    lemma_still_chain(a.w, bundled.w, bundled.try_transactions(budget, worker).0.w);
    lemma_still_chain(a.w, started.w, started.try_bundle(budget, worker).0.w);
}

/// After a transaction stopped to execute, nothing else stops.
pub(crate) proof fn lemma_executed_still(w: World, meta: PriorityId, rep: ExecutionResponse)
    ensures
        still(w.stop_executing(meta.key), w.executed(meta, rep).0),
{
    let stopped = w.stop_executing(meta.key);
    let reported = stopped.report_execution(meta, rep.not_included_reason);
    assert(still(stopped, reported));
    let deferred = reported.defer(meta);
    let inserted = reported.insert_checked(meta);
    assert(still(reported, deferred) && still(reported, inserted));
    assert(still(deferred, deferred.evict_checked()));
    assert(still(inserted, inserted.evict_checked()));
    lemma_still_chain(reported, deferred, deferred.evict_checked());
    lemma_still_chain(reported, inserted, inserted.evict_checked());
    let after = w.executed(meta, rep).0;
    assert(still(reported, after));
    lemma_still_chain(stopped, reported, after);
}

} // verus!
