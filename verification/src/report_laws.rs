//! What is counted and reported, and when.

use vstd::prelude::*;

use crate::auction_model::AuctionWorld;
use crate::batch_model::BatchWorld;
use crate::bridge::{ActionModel, KeyedTransactionMeta, ProgressMessage};
use crate::containers::{least, lemma_least_exists};
use crate::events::{
    CheckFailure, Event, EventContext, EventEmitter, EvictReason, SlotStatsEvent, StampedEvent,
    TransactionAction, TransactionEvent, TransactionSource,
};
use crate::pubkey::Pubkey;
use crate::scheduler_model::{CoreModel, World};
use crate::shared::{BundleModel, PriorityId};
use crate::worker::{CheckResponse, ExecutionResponse, PollError, PollModel};

verus! {

/// The actions once an event about a transaction was reported: with its
/// signature, the scheduler's slot and its priority. Nothing is reported if no
/// events are wanted, if the transaction is unknown, or if it is a simple vote.
pub open spec fn told(w: World, key: u64, priority: u64, action: TransactionAction) -> Seq<
    ActionModel,
> {
    if w.s.events is Some && w.b.transactions.contains_key(key)
        && !w.b.transactions[key].simple_vote {
        w.b.actions.push(
            ActionModel::Emit {
                event: StampedEvent {
                    slot: w.s.events->0.ctx.slot,
                    event: Event::Transaction(
                        TransactionEvent {
                            signature: w.b.transactions[key].fields.signature,
                            slot: w.s.slot,
                            priority,
                            action,
                        },
                    ),
                },
            },
        )
    } else {
        w.b.actions
    }
}

/// Reporting something about a transaction adds that one event, if events are
/// wanted and it is no simple vote, and changes nothing else.
pub proof fn lemma_event_about_transaction(
    w: World,
    key: u64,
    priority: u64,
    action: TransactionAction,
)
    ensures
        w.report_tx(key, priority, action).b.actions == told(w, key, priority, action),
        w.report_tx(key, priority, action).s == w.s,
        w.report_tx(key, priority, action).b.transactions == w.b.transactions,
{
}

/// A transaction that arrives is reported with where it came from, and counted.
pub proof fn lemma_arrival_told(w: World, id: PriorityId)
    ensures
        w.report_tpu(id).b.actions == told(
            w,
            id.key,
            id.priority,
            TransactionAction::Ingest { source: TransactionSource::Tpu, bundle: None },
        ),
        w.report_tpu(id).s == (CoreModel {
            stats: SlotStatsEvent {
                ingest_tpu_ok: w.s.stats.ingest_tpu_ok.wrapping_add(1),
                ..w.s.stats
            },
            ..w.s
        }),
        w.report_packet(id).b.actions == told(
            w,
            id.key,
            id.priority,
            TransactionAction::Ingest { source: TransactionSource::Jito, bundle: None },
        ),
        w.report_packet(id).s == (CoreModel {
            stats: SlotStatsEvent {
                ingest_custom_ok: w.s.stats.ingest_custom_ok.wrapping_add(1),
                ..w.s.stats
            },
            ..w.s
        }),
{
}

/// The transactions of a bundle are reported as those of a bundle of the block
/// engine, which goes by the signature of its first transaction.
pub proof fn lemma_bundle_told(w: World, bundle: BundleModel)
    requires
        bundle.keys.len() > 0,
        w.b.transactions.contains_key(bundle.keys[0]),
    ensures
        w.bundle_ingest(bundle.keys) == (TransactionAction::Ingest {
            source: TransactionSource::Jito,
            bundle: Some(w.b.transactions[bundle.keys[0]].fields.signature),
        }),
        w.report_bundle_upto(
            bundle.keys,
            bundle.priority,
            w.bundle_ingest(bundle.keys),
            1,
        ).b.actions == told(
            w,
            bundle.keys[0],
            bundle.priority,
            w.bundle_ingest(bundle.keys),
        ),
{
    reveal_with_fuel(World::report_bundle_upto, 2);
}

/// A check that found a fault is counted and reported with that fault.
pub proof fn lemma_check_fault_told(
    w: World,
    meta: PriorityId,
    rep: CheckResponse,
    resolved_keys: Option<Seq<Pubkey>>,
    fault: CheckFailure,
)
    requires
        !w.s.executing.contains_key(meta.key),
        !w.s.deferred.contains(meta.triple()),
        rep.failure() == Some(fault),
    ensures
        ({
            let after = w.check_step(meta, rep, resolved_keys).0;
            let expected = told(w, meta.key, meta.priority, TransactionAction::CheckErr { reason: fault });
            &&& after.s.stats == (SlotStatsEvent {
                check_err: w.s.stats.check_err.wrapping_add(1),
                ..w.s.stats
            })
            &&& after.b.actions.len() >= expected.len()
            &&& after.b.actions.take(expected.len() as int) == expected
        }),
{
    let after = w.check_step(meta, rep, resolved_keys).0;
    let expected = told(w, meta.key, meta.priority, TransactionAction::CheckErr { reason: fault });
    assert(after.b.actions.take(expected.len() as int) =~= expected);
}

/// A transaction that passes again is counted as such, and nothing is reported.
pub proof fn lemma_repeated_check_counted(
    w: World,
    meta: PriorityId,
    rep: CheckResponse,
    resolved_keys: Option<Seq<Pubkey>>,
)
    requires
        !w.s.executing.contains_key(meta.key),
        !w.s.deferred.contains(meta.triple()),
        w.s.checked.contains(meta),
        rep.failure() is None,
    ensures
        w.check_step(meta, rep, resolved_keys).0.b == w.b,
        w.check_step(meta, rep, resolved_keys).0.s == (CoreModel {
            stats: SlotStatsEvent { check_ok: w.s.stats.check_ok.wrapping_add(1), ..w.s.stats },
            ..w.s
        }),
{
}

/// An execution is counted and reported as a success if the transaction was
/// included, and otherwise as a failure with its reason.
pub proof fn lemma_execution_told(w: World, meta: PriorityId, reason: u8)
    ensures
        ({
            let after = w.report_execution(meta, reason);
            &&& reason == 0 ==> {
                &&& after.b.actions == told(w, meta.key, meta.priority, TransactionAction::ExecuteOk)
                &&& after.s.stats == (SlotStatsEvent {
                    execute_ok: w.s.stats.execute_ok.wrapping_add(1),
                    ..w.s.stats
                })
            }
            &&& reason != 0 ==> {
                &&& after.b.actions == told(
                    w,
                    meta.key,
                    meta.priority,
                    TransactionAction::ExecuteErr { reason: reason as u32 },
                )
                &&& after.s.stats == (SlotStatsEvent {
                    execute_err: w.s.stats.execute_err.wrapping_add(1),
                    ..w.s.stats
                })
            }
        }),
{
}

/// However an execution ends, it is counted and reported as it ended.
pub proof fn lemma_executed_told(w: World, meta: PriorityId, rep: ExecutionResponse)
    ensures
        ({
            let after = w.executed(meta, rep).0;
            let told = w.stop_executing(meta.key).report_execution(meta, rep.not_included_reason);
            &&& after.s.stats == told.s.stats
            &&& after.b.actions.len() >= told.b.actions.len()
            &&& after.b.actions.take(told.b.actions.len() as int) == told.b.actions
        }),
{
    let after = w.executed(meta, rep).0;
    let told = w.stop_executing(meta.key).report_execution(meta, rep.not_included_reason);
    assert(after.b.actions.take(told.b.actions.len() as int) =~= told.b.actions);
}

/// An execution that came back unprocessed is counted and reported, unless it is
/// of a bundle.
pub proof fn lemma_unprocessed_told(w: World, meta: PriorityId)
    requires
        w.s.executing.contains_key(meta.key),
        meta.priority != u64::MAX,
    ensures
        ({
            let after = w.unprocessed(meta).0;
            let expected = told(w, meta.key, meta.priority, TransactionAction::ExecuteUnprocessed);
            &&& after.s.stats == (SlotStatsEvent {
                execute_unprocessed: w.s.stats.execute_unprocessed.wrapping_add(1),
                ..w.s.stats
            })
            &&& after.b.actions.len() >= expected.len()
            &&& after.b.actions.take(expected.len() as int) == expected
        }),
{
    let after = w.unprocessed(meta).0;
    let expected = told(w, meta.key, meta.priority, TransactionAction::ExecuteUnprocessed);
    assert(after.b.actions.take(expected.len() as int) =~= expected);
}

proof fn lemma_marked(w: World, batch: Seq<KeyedTransactionMeta>, n: int)
    requires
        0 <= n <= batch.len(),
    ensures
        w.mark_executing_upto(batch, n).s.stats == w.s.stats,
        w.mark_executing_upto(batch, n).s.events == w.s.events,
        w.mark_executing_upto(batch, n).s.slot == w.s.slot,
        w.mark_executing_upto(batch, n).b.transactions == w.b.transactions,
        forall|key: u64| #[trigger]
            w.mark_executing_upto(batch, n).s.executing.contains_key(key)
                <==> w.s.executing.contains_key(key) || exists|i: int|
                0 <= i < n && (#[trigger] batch[i]).key == key,
    decreases n,
{
    if n > 0 {
        lemma_marked(w, batch, n - 1);
        let before = w.mark_executing_upto(batch, n - 1);
        let after = w.mark_executing_upto(batch, n);
        assert forall|key: u64| #[trigger] after.s.executing.contains_key(key)
            <==> w.s.executing.contains_key(key) || exists|i: int|
            0 <= i < n && (#[trigger] batch[i]).key == key by {
            if before.s.executing.contains_key(key) && !w.s.executing.contains_key(key) {
                let i = choose|i: int| 0 <= i < n - 1 && (#[trigger] batch[i]).key == key;
                assert(batch[i].key == key);
            }
            if key == batch[n - 1].key {
                assert(batch[n - 1].key == key);
            }
            if exists|i: int| 0 <= i < n && (#[trigger] batch[i]).key == key {
                let i = choose|i: int| 0 <= i < n && (#[trigger] batch[i]).key == key;
                if i < n - 1 {
                    assert(before.s.executing.contains_key(key));
                }
            }
        }
    }
}

/// What was sent to be executed executes, each of its transactions, and is
/// counted and reported, one by one.
pub proof fn lemma_started_executes(w: World, batch: Seq<KeyedTransactionMeta>, i: int)
    requires
        0 <= i < batch.len() <= u64::MAX,
    ensures
        ({
            let after = w.start_batch(batch);
            let before = w.mark_executing_upto(batch, i);
            &&& forall|key: u64| #[trigger]
                after.s.executing.contains_key(key) <==> w.s.executing.contains_key(key) || exists|
                    j: int,
                |
                    0 <= j < batch.len() && (#[trigger] batch[j]).key == key
            &&& after.s.stats == (SlotStatsEvent {
                execute_requested: w.s.stats.execute_requested.wrapping_add(batch.len() as u64),
                ..w.s.stats
            })
            &&& w.mark_executing_upto(batch, i + 1).b.actions == told(
                before,
                batch[i].key,
                batch[i].meta.priority,
                TransactionAction::ExecuteReq,
            )
        }),
{
    lemma_marked(w, batch, batch.len() as int);
    lemma_marked(w, batch, i);
}

/// When the slot changes, the counts of the last one are reported under it, if
/// there was one, and the start of the new one under the new one; the counts
/// begin anew. Without events wanted nothing is reported.
#[verifier::rlimit(50)]
pub proof fn lemma_roll_told(w: World)
    requires
        w.b.progress.current_slot != w.s.slot,
    ensures
        ({
            let slot = w.b.progress.current_slot;
            let after = w.report_roll();
            match w.s.events {
                Some(emitter) => {
                    let ended = ActionModel::Emit {
                        event: StampedEvent {
                            slot: emitter.ctx.slot,
                            event: Event::SlotStats(w.s.stats),
                        },
                    };
                    let began = ActionModel::Emit {
                        event: StampedEvent { slot, event: Event::SlotStart },
                    };
                    &&& w.s.slot != 0 ==> after.b.actions == w.b.actions.push(ended).push(began)
                    &&& w.s.slot == 0 ==> after.b.actions == w.b.actions.push(began)
                    &&& w.s.slot != 0 ==> after.s.stats == SlotStatsEvent::zero()
                    &&& after.s.events == Some(EventEmitter { ctx: EventContext { slot } })
                },
                None => after == w,
            }
        }),
        w.roll_slot().s.slot == w.b.progress.current_slot,
        !w.roll_slot().s.stats.was_leader_ready,
{
    let reported = w.report_roll();
    let deferred = reported.s.deferred;
    let moved = World {
        s: CoreModel {
            slot: w.b.progress.current_slot,
            stats: SlotStatsEvent { was_leader_ready: false, ..reported.s.stats },
            deferred: Seq::empty(),
            ..reported.s
        },
        ..reported
    };
    lemma_restored(moved, deferred, deferred.len() as int);
}

proof fn lemma_restored(w: World, deferred: Seq<(u64, u64, u64)>, n: int)
    requires
        0 <= n <= deferred.len(),
    ensures
        w.restore_upto(deferred, n).s.stats == w.s.stats,
        w.restore_upto(deferred, n).s.slot == w.s.slot,
    decreases n,
{
    if n > 0 {
        lemma_restored(w, deferred, n - 1);
    }
}

/// As long as the slot stays the same, nothing moves on.
pub proof fn lemma_same_slot_stays(w: World)
    requires
        w.b.progress.current_slot == w.s.slot,
    ensures
        w.roll_slot() == w,
{
}

/// That the validator leads is reported and noted.
pub proof fn lemma_leadership_told(w: World)
    ensures
        w.report_leader().s == (CoreModel {
            stats: SlotStatsEvent { was_leader_ready: true, ..w.s.stats },
            ..w.s
        }),
        w.report_leader().b.actions == (match w.s.events {
            Some(emitter) => w.b.actions.push(
                ActionModel::Emit {
                    event: StampedEvent { slot: emitter.ctx.slot, event: Event::LeaderReady },
                },
            ),
            None => w.b.actions,
        }),
{
}

/// A scheduler that keeps track of what is waited for tells of the locks of each
/// transaction that begins to wait to be executed, and again of each that no
/// longer does; any other says nothing about it.
pub proof fn lemma_waiting_told(w: World, id: PriorityId)
    ensures
        w.s.tracks_queue ==> w.insert_checked(id).b.actions == w.b.actions.push(
            ActionModel::Queue { locks: w.b.locks(id.key) },
        ),
        w.s.tracks_queue && w.s.checked.contains(id) ==> w.remove_checked(id).b.actions
            == w.b.actions.push(ActionModel::Dequeue { locks: w.b.locks(id.key) }),
        !w.s.tracks_queue ==> w.insert_checked(id).b == w.b && w.remove_checked(id).b == w.b,
        !w.s.checked.contains(id) ==> w.remove_checked(id) == w,
{
}

/// A transaction that is let go of is released once, if it is known.
pub proof fn lemma_released_once(w: World, key: u64)
    ensures
        w.b.transactions.contains_key(key) ==> w.drop_tx(key).b.actions == w.b.actions.push(
            ActionModel::Drop { key },
        ) && w.drop_tx(key).b.transactions == w.b.transactions.remove(key),
        !w.b.transactions.contains_key(key) ==> w.drop_tx(key) == w,
        w.drop_tx(key).drop_tx(key) == w.drop_tx(key),
        w.drop_tx(key).s == w.s,
{
}

/// A transaction that makes room among those to be checked is reported with that
/// reason, then released.
pub proof fn lemma_unchecked_eviction_told(w: World)
    requires
        w.s.unchecked.len() > 0,
        w.b.transactions.contains_key(least(w.s.unchecked).2),
    ensures
        ({
            let id = least(w.s.unchecked);
            &&& w.evict_unchecked().b.actions == told(
                w,
                id.2,
                id.0,
                TransactionAction::Evict { reason: EvictReason::UncheckedCapacity },
            ).push(ActionModel::Drop { key: id.2 })
            &&& w.evict_unchecked().s.stats == w.s.stats
        }),
{
    lemma_least_exists(w.s.unchecked);
}

/// A transaction that makes room among those to be executed is reported with
/// that reason, then released.
pub proof fn lemma_checked_eviction_told(w: World)
    requires
        w.s.checked.len() > 0,
        w.b.transactions.contains_key(w.s.checked[0].key),
    ensures
        ({
            let id = w.s.checked[0];
            w.evict_checked().b.actions == told(
                w.pop_first_checked(),
                id.key,
                id.priority,
                TransactionAction::Evict { reason: EvictReason::CheckedCapacity },
            ).push(ActionModel::Drop { key: id.key })
        }),
{
}

/// What is counted of the transactions that could not be taken in, and of the
/// room that was made for others.
pub proof fn lemma_refusals_counted(w: World, additional: nat)
    requires
        w.s.unchecked.len() + additional <= u64::MAX,
    ensures
        w.count_tpu_err().s.stats == (SlotStatsEvent {
            ingest_tpu_err: w.s.stats.ingest_tpu_err.wrapping_add(1),
            ..w.s.stats
        }),
        w.count_tpu_filtered().s.stats == (SlotStatsEvent {
            ingest_tpu_filtered: w.s.stats.ingest_tpu_filtered.wrapping_add(1),
            ..w.s.stats
        }),
        w.count_check_evict().s.stats == (SlotStatsEvent {
            check_evict: w.s.stats.check_evict.wrapping_add(1),
            ..w.s.stats
        }),
        w.s.unchecked.len() + additional > w.s.unchecked_capacity ==> w.make_room(
            additional,
        ).s.stats == (SlotStatsEvent {
            ingest_tpu_evict: w.s.stats.ingest_tpu_evict.wrapping_add(
                (w.s.unchecked.len() + additional - w.s.unchecked_capacity) as u64,
            ),
            ..w.s.stats
        }),
{
    let shortfall = crate::worker::floored(
        (w.s.unchecked.len() + additional) as int,
        w.s.unchecked_capacity as int,
    );
    lemma_evictions_uncounted(w, shortfall);
}

proof fn lemma_evictions_uncounted(w: World, n: int)
    ensures
        w.evict_unchecked_upto(n).s.stats == w.s.stats,
    decreases n,
{
    if n > 0 {
        lemma_evictions_uncounted(w, n - 1);
    }
}

/// A round of the batch scheduler is refused for these reasons and in this
/// order: the slot is so high that four cannot be added to it; the share of the
/// block that may be filled does not fit a byte; the validator said nothing, and
/// has not for as long as it may be silent; an answer makes no sense.
pub proof fn lemma_refused_rounds(b: BatchWorld, input: PollModel, progress: ProgressMessage)
    requires
        progress == (match input.progress {
            Some(update) => update,
            None => b.w.b.progress,
        }),
    ensures
        ({
            let high = progress.current_slot + 4 > u64::MAX;
            let full = progress.current_slot_progress + b.w.s.runtime.block_fill_cutoff > 255;
            let silent = input.progress is None && input.now >= b.w.s.last_progress_time
                + b.w.s.runtime.progress_timeout;
            &&& b.poll_error(input) == Some(PollError::SlotTooHigh) <==> high
            &&& b.poll_error(input) == Some(PollError::FillTooHigh) <==> !high && full
            &&& b.poll_error(input) == Some(PollError::Disconnected) <==> !high && !full && silent
            &&& b.poll_error(input) is None ==> !high && !full && !silent
            &&& b.poll_error(input) is None || b.poll_error(input) == Some(PollError::Answer)
                ==> !high && !full && !silent
        }),
{
}

/// The auction scheduler does not give up on a silent validator: it gives it the
/// same time again, and otherwise goes on as before.
pub proof fn lemma_silence_forgiven(a: AuctionWorld, update: Option<ProgressMessage>, now: u64)
    ensures
        ({
            let after = a.w.note_progress_or_starve(update, now);
            match update {
                Some(progress) => {
                    &&& after.b.progress == progress
                    &&& after.s == (CoreModel { last_progress_time: now, ..a.w.s })
                },
                None => {
                    &&& after.b == a.w.b
                    &&& after.s == (CoreModel {
                        last_progress_time: if now >= a.w.s.last_progress_time
                            + a.w.s.runtime.progress_timeout || a.w.s.runtime.progress_timeout
                            == 0 {
                            now
                        } else {
                            a.w.s.last_progress_time
                        },
                        ..a.w.s
                    })
                },
            }
        }),
{
}

/// Of a bundle each transaction is reported, in order.
pub proof fn lemma_each_of_bundle_told(
    w: World,
    keys: Seq<u64>,
    priority: u64,
    action: TransactionAction,
    i: int,
)
    requires
        0 <= i < keys.len(),
    ensures
        w.report_bundle_upto(keys, priority, action, i + 1).b.actions == told(
            w.report_bundle_upto(keys, priority, action, i),
            keys[i],
            priority,
            action,
        ),
        w.report_bundle_upto(keys, priority, action, 0) == w,
{
}

/// A scheduler that keeps track of what is waited for tells of the locks of each
/// transaction of a bundle that begins to wait, and of each once the bundle no
/// longer does.
pub proof fn lemma_bundle_waiting_told(w: World, keys: Seq<u64>, n: int)
    requires
        0 <= n <= keys.len(),
    ensures
        w.s.tracks_queue ==> w.queue_upto(keys, n).b.actions == w.b.actions + Seq::new(
            n as nat,
            |i: int| ActionModel::Queue { locks: w.b.locks(keys[i]) },
        ),
        w.s.tracks_queue ==> w.dequeue_upto(keys, n).b.actions == w.b.actions + Seq::new(
            n as nat,
            |i: int| ActionModel::Dequeue { locks: w.b.locks(keys[i]) },
        ),
        !w.s.tracks_queue ==> w.queue_upto(keys, n).b == w.b && w.dequeue_upto(keys, n).b == w.b,
        w.queue_upto(keys, n).b.transactions == w.b.transactions,
        w.dequeue_upto(keys, n).b.transactions == w.b.transactions,
        w.queue_upto(keys, n).s == w.s,
        w.dequeue_upto(keys, n).s == w.s,
    decreases n,
{
    if n > 0 {
        lemma_bundle_waiting_told(w, keys, n - 1);
        let q = w.queue_upto(keys, n - 1);
        let d = w.dequeue_upto(keys, n - 1);
        assert(q.b.locks(keys[n - 1]) == w.b.locks(keys[n - 1]));
        assert(d.b.locks(keys[n - 1]) == w.b.locks(keys[n - 1]));
    }
    assert(w.s.tracks_queue ==> w.queue_upto(keys, n).b.actions =~= w.b.actions + Seq::new(
        n as nat,
        |i: int| ActionModel::Queue { locks: w.b.locks(keys[i]) },
    ));
    assert(w.s.tracks_queue ==> w.dequeue_upto(keys, n).b.actions =~= w.b.actions + Seq::new(
        n as nat,
        |i: int| ActionModel::Dequeue { locks: w.b.locks(keys[i]) },
    ));
}

/// What makes room no longer waits, and a scheduler that keeps track says so.
pub proof fn lemma_lowest_no_longer_waits(w: World)
    requires
        w.s.checked.len() > 0,
    ensures
        w.pop_first_checked().s.checked == w.s.checked.skip(1),
        w.s.tracks_queue ==> w.pop_first_checked().b.actions == w.b.actions.push(
            ActionModel::Dequeue { locks: w.b.locks(w.s.checked[0].key) },
        ),
        !w.s.tracks_queue ==> w.pop_first_checked().b == w.b,
{
}

/// Of a bundle that is let go of, each transaction no longer waits, and is then
/// released.
pub proof fn lemma_discarded_told(w: World, keys: Seq<u64>, i: int)
    requires
        0 <= i < keys.len(),
        w.discard_upto(keys, i).b.transactions.contains_key(keys[i]),
    ensures
        ({
            let before = w.discard_upto(keys, i);
            let after = w.discard_upto(keys, i + 1);
            let released = ActionModel::Drop { key: keys[i] };
            &&& before.s.tracks_queue ==> after.b.actions == before.b.actions.push(
                ActionModel::Dequeue { locks: before.b.locks(keys[i]) },
            ).push(released)
            &&& !before.s.tracks_queue ==> after.b.actions == before.b.actions.push(released)
        }),
{
}

/// Whether an event about a transaction is the last thing that was done.
pub open spec fn last_told(
    w: World,
    actions: Seq<ActionModel>,
    key: u64,
    priority: u64,
    action: TransactionAction,
) -> bool {
    w.s.events is Some && w.b.transactions.contains_key(key)
        && !w.b.transactions[key].simple_vote ==> actions.len() > 0 && actions.last() == (
    ActionModel::Emit {
        event: StampedEvent {
            slot: w.s.events->0.ctx.slot,
            event: Event::Transaction(
                TransactionEvent {
                    signature: w.b.transactions[key].fields.signature,
                    slot: w.s.slot,
                    priority,
                    action,
                },
            ),
        },
    })
}

/// A transaction that passes its first check is counted and reported as such; and
/// if another made room for it, that is counted too. The batch scheduler.
#[verifier::rlimit(50)]
pub proof fn lemma_batch_pass_told(
    b: BatchWorld,
    meta: PriorityId,
    rep: CheckResponse,
    resolved_keys: Option<Seq<Pubkey>>,
)
    requires
        !b.w.s.executing.contains_key(meta.key),
        !b.w.s.deferred.contains(meta.triple()),
        !b.w.s.checked.contains(meta),
        b.w.s.checked.len() > 0 ==> b.w.s.checked[0].key != meta.key,
        rep.failure() is None,
        !(resolved_keys matches Some(keys) && crate::transaction::any_listed(
            keys,
            b.w.s.filter_keys,
        )),
    ensures
        ({
            let after = b.on_check(meta, rep, resolved_keys).0.w;
            let full = b.w.s.checked.len() + b.w.s.executing.dom().len() + b.w.s.deferred.len()
                >= b.w.s.checked_capacity && b.w.s.checked.len() > 0;
            &&& after.s.stats.check_ok == b.w.s.stats.check_ok.wrapping_add(1)
            &&& !full ==> after.s.stats.check_evict == b.w.s.stats.check_evict
            &&& full ==> after.s.stats.check_evict == b.w.s.stats.check_evict.wrapping_add(1)
            &&& last_told(b.w, after.b.actions, meta.key, meta.priority, TransactionAction::CheckOk)
        }),
{
}

/// A transaction that passes its first check is counted and reported as such, if
/// a place was found for it; if not, it is counted and reported as one that made
/// room. The auction scheduler.
#[verifier::rlimit(50)]
pub proof fn lemma_auction_pass_told(
    a: AuctionWorld,
    meta: PriorityId,
    rep: CheckResponse,
    resolved_keys: Option<Seq<Pubkey>>,
)
    requires
        !a.w.s.executing.contains_key(meta.key),
        !a.w.s.deferred.contains(meta.triple()),
        !a.w.s.checked.contains(meta),
        a.w.s.checked.len() > 0 ==> a.w.s.checked[0].key != meta.key,
        rep.failure() is None,
        !(resolved_keys matches Some(keys) && crate::transaction::any_listed(
            keys,
            a.w.s.filter_keys,
        )),
    ensures
        ({
            let after = a.on_check(meta, rep, resolved_keys).0.w;
            let full = a.w.s.checked.len() + a.w.s.executing.dom().len() + a.w.s.deferred.len()
                >= a.w.s.checked_capacity && a.w.s.checked.len() > 0;
            let refused = full && meta.priority <= a.w.s.checked[0].priority;
            &&& !refused ==> {
                &&& after.s.stats.check_ok == a.w.s.stats.check_ok.wrapping_add(1)
                &&& last_told(
                    a.w,
                    after.b.actions,
                    meta.key,
                    meta.priority,
                    TransactionAction::CheckOk,
                )
            }
            &&& refused ==> {
                &&& after.s.stats.check_ok == a.w.s.stats.check_ok
                &&& last_told(
                    a.w,
                    after.b.actions,
                    meta.key,
                    meta.priority,
                    TransactionAction::Evict { reason: EvictReason::CheckedCapacity },
                )
            }
            &&& full ==> after.s.stats.check_evict == a.w.s.stats.check_evict.wrapping_add(1)
            &&& !full ==> after.s.stats.check_evict == a.w.s.stats.check_evict
        }),
{
}

/// A transaction whose lookups resolved to a filtered account is counted as such.
pub proof fn lemma_filtered_lookup_counted(
    w: World,
    meta: PriorityId,
    rep: CheckResponse,
    keys: Seq<Pubkey>,
    i: int,
)
    requires
        !w.s.executing.contains_key(meta.key),
        !w.s.deferred.contains(meta.triple()),
        !w.s.checked.contains(meta),
        rep.failure() is None,
        0 <= i < keys.len(),
        w.s.filter_keys.contains(keys[i]),
    ensures
        w.check_step(meta, rep, Some(keys)).0.s == (CoreModel {
            stats: SlotStatsEvent {
                check_filtered: w.s.stats.check_filtered.wrapping_add(1),
                ..w.s.stats
            },
            ..w.s
        }),
        w.check_step(meta, rep, Some(keys)).0.b == w.b,
{
}

} // verus!
