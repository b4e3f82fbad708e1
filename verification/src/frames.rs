//! What no step changes.
//!
//! Within a round, a scheduler keeps its configuration, its slot, and the
//! validator's progress; a step changes only queues, counts and transactions.
//! And only the steps that start executions send anything to be executed.

use vstd::prelude::*;

use crate::batch_model::BatchWorld;
use crate::bridge::{ActionModel, BridgeModel, KeyedTransactionMeta, CHECK_FLAGS};
use crate::events::{SlotStatsEvent, TransactionAction};
use crate::jito::UpdateModel;
use crate::pubkey::Pubkey;
use crate::scheduler_model::{scan_upto, CoreModel, World};
use crate::shared::{BundleModel, PriorityId};
use crate::worker::{floored, CheckResponse, ExecutionResponse, ResponseModel};

verus! {

/// Of the actions, the earlier ones stay, and the new ones send nothing to be
/// executed.
#[verifier::opaque]
pub open spec fn starts_nothing(a: Seq<ActionModel>, b: Seq<ActionModel>) -> bool {
    &&& a.len() <= b.len()
    &&& forall|i: int| 0 <= i < a.len() ==> a[i] == #[trigger] b[i]
    &&& forall|i: int|
        a.len() <= i < b.len() ==> ((#[trigger] b[i]) matches ActionModel::Schedule { batch }
            ==> batch.flags == CHECK_FLAGS)
}

/// The connection stands where it stood: same progress, same runtime, same
/// workers; and nothing was sent to be executed.
pub open spec fn steady_bridge(a: BridgeModel, b: BridgeModel) -> bool {
    &&& b.progress == a.progress
    &&& b.runtime == a.runtime
    &&& b.workers.len() == a.workers.len()
    &&& starts_nothing(a.actions, b.actions)
}

/// The scheduler is configured as it was, and in the same slot.
pub open spec fn steady_core(a: CoreModel, b: CoreModel) -> bool {
    &&& b.identity == a.identity
    &&& b.tip_distribution_config == a.tip_distribution_config
    &&& b.filter_keys == a.filter_keys
    &&& b.unchecked_capacity == a.unchecked_capacity
    &&& b.checked_capacity == a.checked_capacity
    &&& b.bundle_capacity == a.bundle_capacity
    &&& b.runtime == a.runtime
    &&& b.tracks_queue == a.tracks_queue
    &&& b.builder_config == a.builder_config
    &&& b.events == a.events
    &&& b.slot == a.slot
    &&& b.stats.was_leader_ready == a.stats.was_leader_ready
}

/// Configuration, slot and progress are as they were.
pub open spec fn steady(a: World, b: World) -> bool {
    steady_bridge(a.b, b.b) && steady_core(a.s, b.s)
}

pub(crate) proof fn lemma_dropped_steady(b: BridgeModel, keys: Seq<u64>, n: int)
    ensures
        steady_bridge(b, b.dropped_upto(keys, n)),
    decreases n,
{
    reveal(starts_nothing);
    if n > 0 {
        lemma_dropped_steady(b, keys, n - 1);
    }
}

pub(crate) proof fn lemma_discard_steady(w: World, keys: Seq<u64>, n: int)
    ensures
        steady(w, w.discard_upto(keys, n)),
        w.discard_upto(keys, n).s == w.s,
    decreases n,
{
    reveal(starts_nothing);
    if n > 0 {
        lemma_discard_steady(w, keys, n - 1);
    }
}

pub(crate) proof fn lemma_queue_steady(w: World, keys: Seq<u64>, n: int)
    ensures
        steady(w, w.queue_upto(keys, n)),
        w.queue_upto(keys, n).s == w.s,
        w.queue_upto(keys, n).b.transactions == w.b.transactions,
    decreases n,
{
    reveal(starts_nothing);
    if n > 0 {
        lemma_queue_steady(w, keys, n - 1);
    }
}

pub(crate) proof fn lemma_evict_steady(w: World, n: int)
    ensures
        steady(w, w.evict_unchecked_upto(n)),
    decreases n,
{
    reveal(starts_nothing);
    if n > 0 {
        lemma_evict_steady(w, n - 1);
    }
}

pub(crate) proof fn lemma_make_room_steady(w: World, additional: nat)
    ensures
        steady(w, w.make_room(additional)),
{
    reveal(starts_nothing);
    lemma_evict_steady(
        w,
        floored((w.s.unchecked.len() + additional) as int, w.s.unchecked_capacity as int),
    );
}

pub(crate) proof fn lemma_report_bundle_steady(
    w: World,
    keys: Seq<u64>,
    priority: u64,
    action: TransactionAction,
    n: int,
)
    ensures
        steady(w, w.report_bundle_upto(keys, priority, action, n)),
        w.report_bundle_upto(keys, priority, action, n).s == w.s,
        w.report_bundle_upto(keys, priority, action, n).b.transactions == w.b.transactions,
    decreases n,
{
    reveal(starts_nothing);
    if n > 0 {
        lemma_report_bundle_steady(w, keys, priority, action, n - 1);
    }
}

pub(crate) proof fn lemma_scan_steady(
    b: BridgeModel,
    packets: Seq<Seq<u8>>,
    values: Seq<Option<(u64, u64)>>,
    n: int,
)
    ensures
        steady_bridge(b, scan_upto(b, packets, values, n).b),
    decreases n,
{
    reveal(starts_nothing);
    if n > 0 {
        lemma_scan_steady(b, packets, values, n - 1);
    }
}

pub(crate) proof fn lemma_scan_bundle_steady(
    w: World,
    packets: Seq<Seq<u8>>,
    values: Seq<Option<(u64, u64)>>,
)
    ensures
        steady(w, w.scan_bundle(packets, values).0),
        w.scan_bundle(packets, values).0.s == w.s,
{
    reveal(starts_nothing);
    let n = packets.len() as int;
    let scan = scan_upto(w.b, packets, values, n);
    lemma_scan_steady(w.b, packets, values, n);
    lemma_dropped_steady(scan.b, scan.keys, scan.keys.len() as int);
}

pub(crate) proof fn lemma_store_bundle_steady(w: World, bundle: BundleModel)
    ensures
        steady(w, w.store_bundle(bundle)),
{
    reveal(starts_nothing);
    let n = bundle.keys.len() as int;
    let action = w.bundle_ingest(bundle.keys);
    let reported = w.report_bundle_upto(bundle.keys, bundle.priority, action, n);
    lemma_report_bundle_steady(w, bundle.keys, bundle.priority, action, n);
    let evicted = reported.evict_bundle();
    if reported.s.bundles.len() > 0 {
        let keys = reported.s.bundles.first().keys;
        lemma_discard_steady(
            World {
                s: CoreModel { bundles: reported.s.bundles.drop_first(), ..reported.s },
                ..reported
            },
            keys,
            keys.len() as int,
        );
    }
    lemma_queue_steady(evicted, bundle.keys, n);
}

pub(crate) proof fn lemma_expired_steady(w: World, bundles: Seq<BundleModel>, now: u64, n: int)
    ensures
        steady(w, w.discard_expired_upto(bundles, now, n)),
        w.discard_expired_upto(bundles, now, n).s == w.s,
    decreases n,
{
    reveal(starts_nothing);
    if n > 0 {
        lemma_expired_steady(w, bundles, now, n - 1);
        let keys = bundles[n - 1].keys;
        lemma_discard_steady(w.discard_expired_upto(bundles, now, n - 1), keys, keys.len() as int);
    }
}

pub(crate) proof fn lemma_drop_expired_steady(w: World, now: u64)
    ensures
        steady(w, w.drop_expired_bundles(now)),
{
    reveal(starts_nothing);
    let n = w.s.bundles.len() as int;
    lemma_expired_steady(
        World {
            s: CoreModel {
                bundles: crate::scheduler_model::fresh_upto(
                    w.s.bundles,
                    now,
                    w.s.runtime.bundle_expiry,
                    n,
                ),
                ..w.s
            },
            ..w
        },
        w.s.bundles,
        now,
        n,
    );
}

pub(crate) proof fn lemma_fill_steady(s: CoreModel, batch: Seq<KeyedTransactionMeta>, n: nat)
    ensures
        steady_core(s, s.fill_checks(batch, n).0),
    decreases n,
{
    reveal(starts_nothing);
    if n > 0 {
        match s.next_check() {
            (next, Some(id)) => {
                lemma_fill_steady(
                    next,
                    batch.push(KeyedTransactionMeta { key: id.key, meta: id }),
                    (n - 1) as nat,
                );
            },
            (_, None) => {},
        }
    }
}

pub(crate) proof fn lemma_send_checks_steady(w: World, n: nat)
    ensures
        steady(w, w.send_checks(n)),
    decreases n,
{
    reveal(starts_nothing);
    if n > 0 && w.check_room() > 0 && w.b.workers[0].len < w.s.runtime.max_check_batches {
        let (s, batch) = w.s.fill_checks(Seq::empty(), 64);
        lemma_fill_steady(w.s, Seq::empty(), 64);
        if batch.len() > 0 {
            lemma_send_checks_steady(
                World {
                    s,
                    b: w.b.scheduled(
                        crate::bridge::BatchModel {
                            worker: crate::bridge::CHECK_WORKER,
                            transactions: batch,
                            max_working_slot: u64::MAX,
                            flags: crate::bridge::CHECK_FLAGS,
                        },
                    ),
                },
                (n - 1) as nat,
            );
        }
    }
}

pub(crate) proof fn lemma_schedule_checks_steady(w: World)
    ensures
        steady(w, w.schedule_checks()),
{
    reveal(starts_nothing);
    lemma_send_checks_steady(w, w.check_room());
}

pub(crate) proof fn lemma_mark_executing_steady(w: World, batch: Seq<KeyedTransactionMeta>, n: int)
    ensures
        steady(w, w.mark_executing_upto(batch, n)),
        w.mark_executing_upto(batch, n).b.workers == w.b.workers,
        w.mark_executing_upto(batch, n).b.transactions == w.b.transactions,
        w.mark_executing_upto(batch, n).s.checked == w.s.checked,
        w.mark_executing_upto(batch, n).s.bundles == w.s.bundles,
    decreases n,
{
    reveal(starts_nothing);
    if n > 0 {
        lemma_mark_executing_steady(w, batch, n - 1);
    }
}

pub(crate) proof fn lemma_executed_steady(w: World, meta: PriorityId, rep: ExecutionResponse)
    ensures
        steady(w, w.executed(meta, rep).0),
{
    reveal(starts_nothing);
    let stopped = w.stop_executing(meta.key);
    assert(steady(w, stopped));
    let reported = stopped.report_execution(meta, rep.not_included_reason);
    assert(steady(stopped, reported));
    assert(steady(reported, reported.defer(meta)));
    assert(steady(reported, reported.insert_checked(meta)));
    assert(steady(reported.defer(meta), reported.defer(meta).evict_checked()));
    assert(steady(reported.insert_checked(meta), reported.insert_checked(meta).evict_checked()));
}

proof fn lemma_check_steady(
    b: BatchWorld,
    meta: PriorityId,
    rep: CheckResponse,
    resolved_keys: Option<Seq<Pubkey>>,
)
    ensures
        steady(b.w, b.on_check(meta, rep, resolved_keys).0.w),
{
    reveal(starts_nothing);
    let (w, step) = b.w.check_step(meta, rep, resolved_keys);
    assert(steady(b.w, w));
    let evicted = w.evict_checked().count_check_evict();
    assert(steady(w, evicted));
}

proof fn lemma_response_steady(b: BatchWorld, meta: PriorityId, response: ResponseModel)
    ensures
        steady(b.w, b.on_response(meta, response).w),
{
    reveal(starts_nothing);
    reveal(BatchWorld::on_response);
    match response {
        ResponseModel::Unprocessed => {},
        ResponseModel::Execute(rep) => {
            lemma_executed_steady(b.w, meta, rep);
        },
        ResponseModel::Check(rep, resolved_keys) => {
            lemma_check_steady(b, meta, rep, resolved_keys);
        },
    }
}

pub(crate) proof fn lemma_responses_steady(
    b: BatchWorld,
    responses: Seq<(PriorityId, ResponseModel)>,
    n: int,
)
    ensures
        steady(b.w, b.on_responses(responses, n).w),
    decreases n,
{
    reveal(starts_nothing);
    if n > 0 {
        lemma_responses_steady(b, responses, n - 1);
        lemma_response_steady(
            b.on_responses(responses, n - 1),
            responses[n - 1].0,
            responses[n - 1].1,
        );
    }
}

pub(crate) proof fn lemma_tpu_steady(b: BatchWorld, tpu: Seq<(Seq<u8>, bool)>, n: int)
    ensures
        steady(b.w, b.on_tpu_upto(tpu, n).w),
    decreases n,
{
    reveal(starts_nothing);
    reveal(BatchWorld::on_tpu);
    if n > 0 {
        lemma_tpu_steady(b, tpu, n - 1);
    }
}

pub(crate) proof fn lemma_drain_tpu_steady(b: BatchWorld, tpu: Seq<(Seq<u8>, bool)>, max_count: int)
    ensures
        steady(b.w, b.drain_tpu(tpu, max_count).w),
{
    reveal(starts_nothing);
    let additional = if tpu.len() < max_count {
        tpu.len() as int
    } else {
        max_count
    };
    lemma_make_room_steady(b.w, additional as nat);
    lemma_tpu_steady(
        BatchWorld { w: b.w.make_room(additional as nat), ..b },
        tpu,
        additional,
    );
}

pub(crate) proof fn lemma_admit_bundle_steady(
    b: BatchWorld,
    packets: Seq<Seq<u8>>,
    values: Seq<Option<(u64, u64)>>,
    now: u64,
)
    ensures
        steady(b.w, b.admit_bundle(packets, values, now).w),
{
    reveal(starts_nothing);
    lemma_scan_bundle_steady(b.w, packets, values);
    match b.w.scan_bundle(packets, values) {
        (w, Some((keys, cost, value))) => {
            lemma_store_bundle_steady(
                w,
                BundleModel {
                    priority: crate::costs::bundle_priority_of(cost, value),
                    cost,
                    received_at: now,
                    keys,
                },
            );
        },
        (_, None) => {},
    }
}

pub(crate) proof fn lemma_updates_steady(b: BatchWorld, updates: Seq<UpdateModel>, now: u64, n: int)
    ensures
        steady(b.w, b.on_updates(updates, now, n).w),
    decreases n,
{
    reveal(starts_nothing);
    reveal(BatchWorld::on_update);
    if n > 0 {
        lemma_updates_steady(b, updates, now, n - 1);
        let before = b.on_updates(updates, now, n - 1);
        match updates[n - 1] {
            UpdateModel::Bundle(bundle) => {
                lemma_admit_bundle_steady(
                    before,
                    bundle,
                    crate::batch_model::bundle_values(before.w.b.runtime, bundle),
                    now,
                );
            },
            _ => {},
        }
    }
}

/// Sending nothing to be executed twice is sending nothing.
pub(crate) proof fn lemma_starts_nothing_chain(
    a: Seq<ActionModel>,
    b: Seq<ActionModel>,
    c: Seq<ActionModel>,
)
    requires
        starts_nothing(a, b),
        starts_nothing(b, c),
    ensures
        starts_nothing(a, c),
{
    reveal(starts_nothing);
}

proof fn lemma_restore_starts_nothing(w: World, deferred: Seq<(u64, u64, u64)>, n: int)
    ensures
        starts_nothing(w.b.actions, w.restore_upto(deferred, n).b.actions),
    decreases n,
{
    reveal(starts_nothing);
    if n > 0 {
        lemma_restore_starts_nothing(w, deferred, n - 1);
    }
}

/// Moving on to another slot sends nothing to be executed.
pub(crate) proof fn lemma_roll_starts_nothing(w: World)
    ensures
        starts_nothing(w.b.actions, w.roll_slot().b.actions),
{
    reveal(starts_nothing);
    if w.b.progress.current_slot != w.s.slot {
        let reported = w.report_roll();
        let deferred = reported.s.deferred;
        assert(starts_nothing(w.b.actions, reported.b.actions));
        let moved = World {
            s: CoreModel {
                slot: w.b.progress.current_slot,
                stats: SlotStatsEvent { was_leader_ready: false, ..reported.s.stats },
                deferred: Seq::empty(),
                ..reported.s
            },
            ..reported
        };
        lemma_restore_starts_nothing(moved, deferred, deferred.len() as int);
    }
}

} // verus!
