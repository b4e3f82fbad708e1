//! No scheduler holds a transaction twice, and none loses one.
//!
//! Whatever arrives in a round, each transaction that the scheduler holds is in
//! one place, and was not let go of; and one that it neither holds nor has let go
//! of is being checked. Workers are expected to answer about what they were sent.

use vstd::prelude::*;

use crate::auction_engine::Holders;
use crate::auction_model::{
    acquire_upto, auction_priority_of, bid_values, capped_score, pick_upto, AuctionWorld,
    SEARCH_LIMIT,
};
use crate::batch_model::{bundle_values, BatchWorld};
use crate::bridge::{
    BatchModel, BridgeModel, KeyedTransactionMeta, ProgressMessage, TxDecision,
    EXECUTE_BUNDLE_FLAGS, EXECUTE_FLAGS, EXECUTE_WORKER_START,
};
use crate::costs::{bundle_priority_of, priority_and_cost};
use crate::events::{EventEmitter, SlotStatsEvent};
use crate::jito::{BuilderConfig, UpdateModel};
use crate::lifecycle::{
    asked, bundle_keys, checked_keys, deferred_keys, distinct_checked, distinct_message, extends, held, keeps,
    lemma_asked_stays, lemma_check_step, lemma_dequeue_places, lemma_drop, lemma_drop_expired,
    lemma_evict_checked, lemma_evict_unchecked, lemma_executed, lemma_insert_checked,
    lemma_inserted, lemma_make_room, lemma_push_unchecked, lemma_received, lemma_remove_checked,
    lemma_resolved, lemma_roll_slot, lemma_same_places, lemma_scan_bundle, lemma_schedule_checks,
    lemma_settled, lemma_start_batch, lemma_start_executing, lemma_store_bundle, lemma_take_bundle,
    lemma_take_checked, lemma_unprocessed, live, loose, message_keys, orderly, settles, tidy,
    unchecked_keys, was_sent,
};
use crate::ordered::{increasing, lemma_without_item};
use crate::pubkey::Pubkey;
use crate::queues::{bundle_message, with_executing};
use crate::scheduler_model::{CoreArgs, CoreModel, World};
use crate::shared::{BundleModel, PriorityId};
use crate::worker::{round_limit, CheckResponse, PollModel, ResponseModel};

verus! {

/// A scheduler that has received nothing holds nothing, and is in order.
pub proof fn lemma_started_orderly(
    w: World,
    args: CoreArgs,
    builder_config: BuilderConfig,
    events: Option<EventEmitter>,
    tracks_queue: bool,
    now: u64,
)
    requires
        w.s.started(args, builder_config, events, tracks_queue, now),
        w.b.transactions.dom() == Set::<u64>::empty(),
    ensures
        orderly(w),
        loose(w) == Set::<u64>::empty(),
{
    reveal(orderly);
    assert(unchecked_keys(w.s.unchecked) =~= Set::empty());
    assert(checked_keys(w.s.checked) =~= Set::empty());
    assert(deferred_keys(w.s.deferred) =~= Set::empty());
    assert(bundle_keys(w.s.bundles) =~= Set::empty());
    assert(w.s.executing.dom() =~= Set::empty());
    assert(held(w.s) =~= Set::empty());
    assert(loose(w) =~= Set::empty());
}

/// Where all is in order, a transaction is in one place: none waits while it
/// executes, and none waits in two ways.
pub proof fn lemma_in_one_place(w: World, key: u64)
    requires
        orderly(w),
    ensures
        tidy(w.s),
        w.s.executing.contains_key(key) ==> !unchecked_keys(w.s.unchecked).contains(key)
            && !checked_keys(w.s.checked).contains(key) && !deferred_keys(w.s.deferred).contains(key)
            && !bundle_keys(w.s.bundles).contains(key),
        held(w.s).contains(key) ==> w.b.transactions.contains_key(key),
{
    reveal(orderly);
}

/// What a worker answers is about something that it was sent.
pub open spec fn answers(w: World, meta: PriorityId, response: ResponseModel) -> bool {
    response is Check ==> was_sent(w, meta)
}

/// Two new transactions, which execute or are let go of.
pub(crate) proof fn lemma_tips(w: World, init: u64, change: u64, after: World)
    requires
        orderly(w),
        init != change,
        loose(w).contains(init),
        loose(w).contains(change),
        after == w.drop_tx(init).drop_tx(change) || {
            &&& after.s == (CoreModel {
                executing: with_executing(with_executing(w.s.executing, init, 0), change, 0),
                ..w.s
            })
            &&& after.b.transactions == w.b.transactions
            &&& after.b.next_key == w.b.next_key
        },
    ensures
        orderly(after),
        loose(after) == loose(w).remove(init).remove(change),
{
    if after == w.drop_tx(init).drop_tx(change) {
        lemma_drop(w, init);
        lemma_drop(w.drop_tx(init), change);
    } else {
        let first = World {
            s: CoreModel { executing: with_executing(w.s.executing, init, 0), ..w.s },
            ..w
        };
        assert(first.s.executing.dom() =~= w.s.executing.dom().insert(init));
        lemma_start_executing(w, init, first);
        assert(after.s.executing.dom() =~= first.s.executing.dom().insert(change));
        lemma_start_executing(first, change, after);
    }
}

pub(crate) proof fn lemma_batch_tips(b: BatchWorld)
    requires
        orderly(b.w),
    ensures
        keeps(b.w, b.become_tip_receiver().w),
{
    if let Some((init, change)) = b.w.s.tip_packets() {
        lemma_inserted(b.w, init);
        if let (first, Some(init_key)) = b.w.b.inserted(init) {
            let one = World { b: first, ..b.w };
            lemma_inserted(one, change);
            match first.inserted(change) {
                (second, Some(change_key)) => {
                    let two = World { b: second, ..b.w };
                    assert(loose(two).contains(init_key) && loose(two).contains(change_key));
                    lemma_tips(two, init_key, change_key, b.submit_tips(init, change).w);
                },
                (second, None) => {
                    lemma_drop(World { b: second, ..b.w }, init_key);
                },
            }
        }
    }
}

pub(crate) proof fn lemma_batch_roll(b: BatchWorld, update: Option<ProgressMessage>, now: u64)
    requires
        orderly(b.w),
    ensures
        keeps(b.w, b.check_slot_roll(update, now).w),
{
    let noted = b.w.note_progress(update, now);
    lemma_same_places(b.w, noted);
    lemma_roll_slot(noted);
    let rolled = noted.roll_slot();
    if noted.becomes_leader() {
        lemma_same_places(rolled, rolled.report_leader());
        lemma_batch_tips(BatchWorld { w: rolled.report_leader(), ..b });
    }
}

proof fn lemma_batch_check(
    b: BatchWorld,
    meta: PriorityId,
    rep: CheckResponse,
    resolved_keys: Option<Seq<Pubkey>>,
)
    requires
        orderly(b.w),
        was_sent(b.w, meta),
        live(b.w.b).contains(meta.key),
    ensures
        ({
            let (after, decision) = b.on_check(meta, rep, resolved_keys);
            &&& settles(b.w, meta.key, after.w, decision)
            &&& decision == TxDecision::Keep ==> !loose(after.w).contains(meta.key)
        }),
{
    lemma_check_step(b.w, meta, rep, resolved_keys);
    if b.w.check_step(meta, rep, resolved_keys).1 is Admit {
        let w = b.w;
        let room = if w.s.pending() >= w.s.checked_capacity && w.s.checked.len() > 0 {
            lemma_evict_checked(w);
            lemma_same_places(w.evict_checked(), w.evict_checked().count_check_evict());
            w.evict_checked().count_check_evict()
        } else {
            w
        };
        lemma_insert_checked(room, meta);
        let placed = room.insert_checked(meta);
        lemma_same_places(placed, b.on_check(meta, rep, resolved_keys).0.w);
    }
}

/// An answer keeps order; and after an answer to a check, the transaction is
/// held or was let go of.
pub proof fn lemma_batch_response(b: BatchWorld, meta: PriorityId, response: ResponseModel)
    requires
        orderly(b.w),
        answers(b.w, meta, response),
    ensures
        keeps(b.w, b.on_response(meta, response).w),
        response is Check ==> !loose(b.on_response(meta, response).w).contains(meta.key),
{
    reveal(BatchWorld::on_response);
    let key = meta.key;
    if b.w.b.transactions.contains_key(key) {
        match response {
            ResponseModel::Unprocessed => {
                lemma_unprocessed(b.w, meta);
            },
            ResponseModel::Execute(rep) => {
                if b.w.s.executing.contains_key(key) {
                    lemma_executed(b.w, meta, rep);
                }
            },
            ResponseModel::Check(rep, resolved_keys) => {
                lemma_batch_check(b, meta, rep, resolved_keys);
                let checked = b.on_check(meta, rep, resolved_keys).0;
                lemma_resolved(checked.w, key, resolved_keys);
            },
        }
        let (next, decision) = b.decide(meta, response);
        lemma_settled(b.w, key, next.w, decision);
        if decision == TxDecision::Drop {
            lemma_drop(next.w, key);
        }
    }
}

pub(crate) proof fn lemma_batch_responses(b: BatchWorld, responses: Seq<(PriorityId, ResponseModel)>, n: int)
    requires
        orderly(b.w),
        0 <= n <= responses.len(),
        forall|i: int|
            0 <= i < n ==> answers(
                (#[trigger] b.on_responses(responses, i)).w,
                responses[i].0,
                responses[i].1,
            ),
    ensures
        keeps(b.w, b.on_responses(responses, n).w),
    decreases n,
{
    if n > 0 {
        lemma_batch_responses(b, responses, n - 1);
        lemma_batch_response(
            b.on_responses(responses, n - 1),
            responses[n - 1].0,
            responses[n - 1].1,
        );
    }
}

pub(crate) proof fn lemma_batch_tpu(b: BatchWorld, packet: Seq<u8>, simple_vote: bool)
    requires
        orderly(b.w),
    ensures
        keeps(b.w, b.on_tpu(packet, simple_vote).w),
{
    reveal(BatchWorld::on_tpu);
    lemma_received(b.w, packet, simple_vote);
    if let (received, Some(key)) = b.w.b.received(packet, simple_vote) {
        let taken = BatchWorld { w: World { b: received, ..b.w }, ..b };
        let score = priority_and_cost(b.w.b.runtime, packet);
        let next = taken.admit_tpu(key, score).0;
        match score {
            Some((priority, cost)) if !taken.w.filtered(key) => {
                let id = PriorityId { priority, cost, key };
                lemma_push_unchecked(taken.w, id);
                lemma_same_places(taken.w.push_unchecked(id), next.w);
            },
            _ => {
                lemma_same_places(taken.w, next.w);
                lemma_drop(next.w, key);
            },
        }
    }
}

pub(crate) proof fn lemma_batch_tpu_upto(b: BatchWorld, tpu: Seq<(Seq<u8>, bool)>, n: int)
    requires
        orderly(b.w),
    ensures
        keeps(b.w, b.on_tpu_upto(tpu, n).w),
    decreases n,
{
    if n > 0 {
        lemma_batch_tpu_upto(b, tpu, n - 1);
        lemma_batch_tpu(b.on_tpu_upto(tpu, n - 1), tpu[n - 1].0, tpu[n - 1].1);
    }
}

/// A new transaction of the block engine waits to be checked.
proof fn lemma_admit_unchecked(w: World, id: PriorityId)
    requires
        orderly(w),
        loose(w).contains(id.key),
    ensures
        orderly(w.admit_unchecked_packet(id)),
        loose(w.admit_unchecked_packet(id)).subset_of(loose(w).remove(id.key)),
{
    let room = if w.s.unchecked.len() == w.s.unchecked_capacity {
        w.evict_unchecked()
    } else {
        w
    };
    lemma_evict_unchecked(w);
    lemma_push_unchecked(room, id);
    lemma_same_places(room.push_unchecked(id), w.admit_unchecked_packet(id));
}

proof fn lemma_batch_packet(b: BatchWorld, packet: Seq<u8>)
    requires
        orderly(b.w),
    ensures
        keeps(b.w, b.on_packet(packet).w),
{
    lemma_inserted(b.w, packet);
    if let (inserted, Some(key)) = b.w.b.inserted(packet) {
        let taken = World { b: inserted, ..b.w };
        match priority_and_cost(b.w.b.runtime, packet) {
            Some((priority, cost)) if !taken.filtered(key) => {
                lemma_admit_unchecked(taken, PriorityId { priority, cost, key });
            },
            _ => {
                lemma_refused(taken, key);
            },
        }
    }
}

/// A new transaction of the block engine is refused.
proof fn lemma_refused(w: World, key: u64)
    requires
        orderly(w),
        loose(w).contains(key),
    ensures
        orderly(w.refuse_packet(key)),
        loose(w.refuse_packet(key)) == loose(w).remove(key),
        orderly(w.filter_packet(key)),
        loose(w.filter_packet(key)) == loose(w).remove(key),
{
    let refused = World {
        s: CoreModel {
            stats: SlotStatsEvent {
                ingest_custom_err: w.s.stats.ingest_custom_err.wrapping_add(1),
                ..w.s.stats
            },
            ..w.s
        },
        ..w
    };
    lemma_same_places(w, refused);
    lemma_drop(refused, key);
    let filtered = World {
        s: CoreModel {
            stats: SlotStatsEvent {
                ingest_custom_filtered: w.s.stats.ingest_custom_filtered.wrapping_add(1),
                ..w.s.stats
            },
            ..w.s
        },
        ..w
    };
    lemma_same_places(w, filtered);
    lemma_drop(filtered, key);
}

pub(crate) proof fn lemma_batch_update(b: BatchWorld, update: UpdateModel, now: u64)
    requires
        orderly(b.w),
    ensures
        keeps(b.w, b.on_update(update, now).w),
{
    reveal(BatchWorld::on_update);
    match update {
        UpdateModel::Packet(packet) => {
            lemma_batch_packet(b, packet);
        },
        UpdateModel::Bundle(packets) => {
            let values = bundle_values(b.w.b.runtime, packets);
            lemma_scan_bundle(b.w, packets, values);
            if let (w, Some((keys, cost, value))) = b.w.scan_bundle(packets, values) {
                lemma_store_bundle(
                    w,
                    BundleModel {
                        priority: bundle_priority_of(cost, value),
                        cost,
                        received_at: now,
                        keys,
                    },
                );
            }
        },
        _ => {
            lemma_same_places(b.w, b.on_update(update, now).w);
        },
    }
}

pub(crate) proof fn lemma_batch_updates(b: BatchWorld, updates: Seq<UpdateModel>, now: u64, n: int)
    requires
        orderly(b.w),
    ensures
        keeps(b.w, b.on_updates(updates, now, n).w),
    decreases n,
{
    if n > 0 {
        lemma_batch_updates(b, updates, now, n - 1);
        lemma_batch_update(b.on_updates(updates, now, n - 1), updates[n - 1], now);
    }
}

/// The transactions of a message are loose, and nothing else has become so.
pub open spec fn frees(a: World, b: World, batch: Seq<KeyedTransactionMeta>) -> bool {
    &&& orderly(b)
    &&& distinct_message(batch)
    &&& message_keys(batch).subset_of(loose(b))
    &&& loose(b).subset_of(loose(a).union(message_keys(batch)))
    &&& extends(a.b.actions, b.b.actions)
}

/// Starting the transactions of a message, which are loose, keeps order.
pub(crate) proof fn lemma_freed_started(a: World, b: World, batch: Seq<KeyedTransactionMeta>)
    requires
        frees(a, b, batch),
    ensures
        keeps(a, b.start_batch(batch)),
        extends(a.b.actions, b.start_batch(batch).b.actions),
{
    lemma_start_batch(b, batch);
    lemma_mark_extends(b, batch, batch.len() as int);
}

proof fn lemma_mark_extends(w: World, batch: Seq<KeyedTransactionMeta>, n: int)
    ensures
        extends(w.b.actions, w.mark_executing_upto(batch, n).b.actions),
    decreases n,
{
    if n > 0 {
        lemma_mark_extends(w, batch, n - 1);
    }
}

pub(crate) proof fn lemma_bundle_message_keys(keys: Seq<u64>, cost: u64)
    requires
        keys.no_duplicates(),
    ensures
        message_keys(bundle_message(keys, cost)) == keys.to_set(),
        distinct_message(bundle_message(keys, cost)),
{
    let batch = bundle_message(keys, cost);
    assert forall|key: u64| message_keys(batch).contains(key) <==> keys.to_set().contains(key) by {
        if keys.contains(key) {
            let i = keys.index_of(key);
            assert(batch[i].key == key);
        }
        if message_keys(batch).contains(key) {
            let i = choose|i: int| 0 <= i < batch.len() && (#[trigger] batch[i]).key == key;
            assert(keys[i] == key);
        }
    }
    assert(message_keys(batch) =~= keys.to_set());
}

proof fn lemma_lock_upto_moves_nothing(b: BatchWorld, keys: Seq<u64>, n: int)
    ensures
        b.lock_upto(keys, n).w == b.w,
    decreases n,
{
    if n > 0 {
        lemma_lock_upto_moves_nothing(b, keys, n - 1);
    }
}

proof fn lemma_nothing_freed(w: World)
    requires
        orderly(w),
    ensures
        frees(w, w, Seq::empty()),
{
    assert(message_keys(Seq::empty()) =~= Set::empty());
}

pub(crate) proof fn lemma_batch_best(b: BatchWorld, budget: u64, worker: usize)
    requires
        orderly(b.w),
    ensures
        frees(b.w, b.try_best(budget, worker).0.w, b.try_best(budget, worker).2),
{
    lemma_nothing_freed(b.w);
    let checked = b.w.s.checked;
    let bundles = b.w.s.bundles;
    let (next, _, batch) = b.try_best(budget, worker);
    if checked.len() > 0 && (bundles.len() == 0 || checked.last().priority
        >= bundles.last().priority) {
        let tx = checked.last();
        if !(tx.cost > budget || !b.can_lock(tx.key)) {
            let rest = checked.drop_last();
            let at = checked.len() - 1;
            assert(rest =~= checked.remove(at));
            lemma_take_checked(b.w, at, rest);
            lemma_same_places(World { s: CoreModel { checked: rest, ..b.w.s }, ..b.w }, next.w);
            assert(batch[0].key == tx.key);
            assert(message_keys(batch) =~= Set::empty().insert(tx.key));
        }
    } else if bundles.len() > 0 {
        let bundle = bundles.last();
        if !(bundle.cost > budget || !b.can_lock_keys(bundle.keys)) {
            lemma_lock_upto_moves_nothing(b, bundle.keys, bundle.keys.len() as int);
            let rest = bundles.drop_last();
            let at = bundles.len() - 1;
            assert(rest =~= bundles.remove(at));
            lemma_take_bundle(b.w, at, rest);
            lemma_same_places(World { s: CoreModel { bundles: rest, ..b.w.s }, ..b.w }, next.w);
            lemma_bundle_message_keys(bundle.keys, bundle.cost);
        }
    }
}

pub(crate) proof fn lemma_batch_execute(b: BatchWorld, budget: u64, worker: int, n: int)
    requires
        orderly(b.w),
    ensures
        keeps(b.w, b.execute_from(budget, worker, n).w),
        extends(b.w.b.actions, b.execute_from(budget, worker, n).w.b.actions),
    decreases n - worker,
{
    if worker >= n || budget == 0 {
    } else if b.w.b.workers[worker].len != 0 {
        lemma_batch_execute(b, budget, worker + 1, n);
    } else {
        let (next, left, batch) = b.try_best(budget, worker as usize);
        lemma_batch_best(b, budget, worker as usize);
        if batch.len() == 0 {
            assert(message_keys(batch) =~= Set::empty());
        } else {
            lemma_freed_started(b.w, next.w, batch);
            lemma_batch_execute(
                BatchWorld { w: next.w.start_batch(batch), ..next },
                left,
                worker + 1,
                n,
            );
        }
    }
}

/// A round of the batch scheduler keeps each transaction that it holds in one
/// place, and loses none: what it neither holds nor has let go of, it has sent to
/// be checked.
pub proof fn lemma_batch_round(b: BatchWorld, input: PollModel)
    requires
        orderly(b.w),
        forall|i: int|
            0 <= i < input.responses.len() ==> answers(
                (#[trigger] b.check_slot_roll(input.progress, input.now).on_responses(
                    input.responses,
                    i,
                )).w,
                input.responses[i].0,
                input.responses[i].1,
            ),
    ensures
        orderly(b.poll(input).w),
        loose(b.poll(input).w).subset_of(loose(b.w).union(asked(b.poll(input).w.b.actions))),
{
    let now = input.now;
    lemma_batch_roll(b, input.progress, now);
    let rolled = b.check_slot_roll(input.progress, now);
    let n = input.responses.len() as int;
    lemma_batch_responses(rolled, input.responses, n);
    let answered = rolled.on_responses(input.responses, n);
    let limit = round_limit(answered.is_leader());
    let additional = if input.tpu.len() < limit {
        input.tpu.len() as int
    } else {
        limit
    };
    lemma_make_room(answered.w, additional as nat);
    let roomy = BatchWorld { w: answered.w.make_room(additional as nat), ..answered };
    lemma_batch_tpu_upto(roomy, input.tpu, additional);
    let drained = answered.drain_tpu(input.tpu, limit);
    lemma_drop_expired(drained.w, now);
    let fresh = BatchWorld { w: drained.w.drop_expired_bundles(now), ..drained };
    lemma_batch_updates(fresh, input.updates, now, input.updates.len() as int);
    let taken = b.take_in(input).0;
    lemma_schedule_checks(taken.w);
    let checks = BatchWorld { w: taken.w.schedule_checks(), ..taken };
    if answered.is_leader() {
        let budget = crate::worker::budget_of(
            checks.w.b.progress,
            checks.w.s.runtime.block_fill_cutoff,
            checks.w.s.in_flight_cus,
        ) as u64;
        let executed = checks.schedule_execute();
        lemma_batch_execute(
            checks,
            budget,
            EXECUTE_WORKER_START as int,
            checks.w.b.workers.len() as int,
        );
        lemma_asked_stays(checks.w.b.actions, executed.w.b.actions);
        lemma_same_places(executed.w, executed.w.start_recheck());
    }
}

pub(crate) proof fn lemma_auction_tips(a: AuctionWorld)
    requires
        orderly(a.w),
    ensures
        keeps(a.w, a.become_tip_receiver().w),
{
    if let Some((init, change)) = a.w.s.tip_packets() {
        lemma_inserted(a.w, init);
        if let (first, Some(init_key)) = a.w.b.inserted(init) {
            let one = World { b: first, ..a.w };
            lemma_inserted(one, change);
            match first.inserted(change) {
                (second, Some(change_key)) => {
                    let two = World { b: second, ..a.w };
                    assert(loose(two).contains(init_key) && loose(two).contains(change_key));
                    lemma_tips(two, init_key, change_key, a.submit_tips(init, change).w);
                },
                (second, None) => {
                    lemma_drop(World { b: second, ..a.w }, init_key);
                },
            }
        }
    }
}

pub(crate) proof fn lemma_auction_roll(a: AuctionWorld, update: Option<ProgressMessage>, now: u64)
    requires
        orderly(a.w),
    ensures
        keeps(a.w, a.check_slot_roll(update, now).w),
{
    let noted = a.w.note_progress_or_starve(update, now);
    lemma_same_places(a.w, noted);
    lemma_roll_slot(noted);
    let rolled = noted.roll_slot();
    if noted.becomes_leader() {
        lemma_same_places(rolled, rolled.report_leader());
        lemma_auction_tips(AuctionWorld { w: rolled.report_leader(), ..a });
    }
}

/// A loose transaction finds a place, or is refused.
proof fn lemma_insert_with_capacity(w: World, meta: PriorityId)
    requires
        orderly(w),
        loose(w).contains(meta.key),
    ensures
        ({
            let (after, decision) = w.insert_with_capacity(meta);
            &&& settles(w, meta.key, after, decision)
            &&& decision == TxDecision::Keep ==> loose(after) == loose(w).remove(meta.key)
        }),
{
    if w.s.pending() >= w.s.checked_capacity && w.s.checked.len() > 0 {
        if meta.priority <= w.s.checked.first().priority {
            lemma_same_places(w, w.insert_with_capacity(meta).0);
        } else {
            lemma_evict_checked(w);
            let room = w.evict_checked().count_check_evict();
            lemma_same_places(w.evict_checked(), room);
            lemma_insert_checked(room, meta);
        }
    } else {
        lemma_insert_checked(w, meta);
    }
}

proof fn lemma_auction_check(
    a: AuctionWorld,
    meta: PriorityId,
    rep: CheckResponse,
    resolved_keys: Option<Seq<Pubkey>>,
)
    requires
        orderly(a.w),
        was_sent(a.w, meta),
        live(a.w.b).contains(meta.key),
    ensures
        ({
            let (after, decision) = a.on_check(meta, rep, resolved_keys);
            &&& settles(a.w, meta.key, after.w, decision)
            &&& decision == TxDecision::Keep ==> !loose(after.w).contains(meta.key)
        }),
{
    lemma_check_step(a.w, meta, rep, resolved_keys);
    if a.w.check_step(meta, rep, resolved_keys).1 is Admit {
        lemma_insert_with_capacity(a.w, meta);
        let placed = a.w.insert_with_capacity(meta).0;
        lemma_same_places(placed, a.on_check(meta, rep, resolved_keys).0.w);
    }
}

/// An answer keeps order; and after an answer to a check, the transaction is
/// held or was let go of.
pub proof fn lemma_auction_response(a: AuctionWorld, meta: PriorityId, response: ResponseModel)
    requires
        orderly(a.w),
        answers(a.w, meta, response),
    ensures
        keeps(a.w, a.on_response(meta, response).w),
        response is Check ==> !loose(a.on_response(meta, response).w).contains(meta.key),
{
    reveal(AuctionWorld::on_response);
    let key = meta.key;
    if a.w.b.transactions.contains_key(key) {
        match response {
            ResponseModel::Unprocessed => {
                lemma_unprocessed(a.w, meta);
            },
            ResponseModel::Execute(rep) => {
                if a.w.s.executing.contains_key(key) {
                    lemma_executed(a.w, meta, rep);
                }
            },
            ResponseModel::Check(rep, resolved_keys) => {
                lemma_auction_check(a, meta, rep, resolved_keys);
                let checked = a.on_check(meta, rep, resolved_keys).0;
                lemma_resolved(checked.w, key, resolved_keys);
            },
        }
        let (next, decision) = a.decide(meta, response);
        lemma_settled(a.w, key, next.w, decision);
        if decision == TxDecision::Drop {
            lemma_drop(next.w, key);
        }
    }
}

pub(crate) proof fn lemma_auction_responses(
    a: AuctionWorld,
    responses: Seq<(PriorityId, ResponseModel)>,
    n: int,
)
    requires
        orderly(a.w),
        0 <= n <= responses.len(),
        forall|i: int|
            0 <= i < n ==> answers(
                (#[trigger] a.on_responses(responses, i)).w,
                responses[i].0,
                responses[i].1,
            ),
    ensures
        keeps(a.w, a.on_responses(responses, n).w),
    decreases n,
{
    if n > 0 {
        lemma_auction_responses(a, responses, n - 1);
        lemma_auction_response(
            a.on_responses(responses, n - 1),
            responses[n - 1].0,
            responses[n - 1].1,
        );
    }
}

pub(crate) proof fn lemma_auction_tpu(a: AuctionWorld, packet: Seq<u8>, simple_vote: bool, score: u64)
    requires
        orderly(a.w),
    ensures
        keeps(a.w, a.on_tpu(packet, simple_vote, score).w),
{
    reveal(AuctionWorld::on_tpu);
    lemma_received(a.w, packet, simple_vote);
    if let (received, Some(key)) = a.w.b.received(packet, simple_vote) {
        let taken = AuctionWorld { w: World { b: received, ..a.w }, ..a };
        let priority = auction_priority_of(a.w.b.runtime, packet, score, a.min_score);
        let (next, decision) = taken.admit_tpu(key, priority);
        match priority {
            Some((priority, cost)) if !taken.w.filtered(key) => {
                let id = PriorityId { priority, cost, key };
                if taken.w.has_lookups(key) {
                    lemma_push_unchecked(taken.w, id);
                    lemma_same_places(taken.w.push_unchecked(id), next.w);
                } else {
                    lemma_insert_with_capacity(taken.w, id);
                    lemma_same_places(taken.w.insert_with_capacity(id).0, next.w);
                }
            },
            _ => {
                lemma_same_places(taken.w, next.w);
            },
        }
        if decision == TxDecision::Drop {
            lemma_drop(next.w, key);
        }
    }
}

pub(crate) proof fn lemma_auction_tpu_upto(
    a: AuctionWorld,
    tpu: Seq<(Seq<u8>, bool)>,
    scores: Seq<u64>,
    n: int,
)
    requires
        orderly(a.w),
    ensures
        keeps(a.w, a.on_tpu_upto(tpu, scores, n).w),
    decreases n,
{
    if n > 0 {
        lemma_auction_tpu_upto(a, tpu, scores, n - 1);
        lemma_auction_tpu(
            a.on_tpu_upto(tpu, scores, n - 1),
            tpu[n - 1].0,
            tpu[n - 1].1,
            scores[n - 1],
        );
    }
}

proof fn lemma_auction_packet(a: AuctionWorld, packet: Seq<u8>, score: u64)
    requires
        orderly(a.w),
    ensures
        keeps(a.w, a.on_packet(packet, score).w),
{
    lemma_inserted(a.w, packet);
    if let (inserted, Some(key)) = a.w.b.inserted(packet) {
        let taken = World { b: inserted, ..a.w };
        match auction_priority_of(a.w.b.runtime, packet, score, a.min_score) {
            Some((priority, cost)) if !taken.filtered(key) => {
                let id = PriorityId { priority, cost, key };
                if taken.has_lookups(key) {
                    lemma_admit_unchecked(taken, id);
                } else {
                    lemma_insert_with_capacity(taken, id);
                    let (placed, decision) = taken.insert_with_capacity(id);
                    lemma_same_places(placed, placed.report_packet(id));
                    if decision == TxDecision::Drop {
                        lemma_drop(placed.report_packet(id), key);
                    }
                }
            },
            _ => {
                lemma_refused(taken, key);
            },
        }
    }
}

pub(crate) proof fn lemma_auction_update(a: AuctionWorld, update: UpdateModel, scores: Seq<u64>, now: u64)
    requires
        orderly(a.w),
    ensures
        keeps(a.w, a.on_update(update, scores, now).w),
{
    reveal(AuctionWorld::on_update);
    match update {
        UpdateModel::Packet(packet) => {
            lemma_auction_packet(a, packet, scores[0]);
        },
        UpdateModel::Bundle(packets) => {
            let values = bid_values(a.w.b.runtime, packets, scores, a.min_score);
            lemma_scan_bundle(a.w, packets, values);
            if let (w, Some((keys, cost, value))) = a.w.scan_bundle(packets, values) {
                lemma_store_bundle(
                    w,
                    BundleModel { priority: capped_score(value), cost, received_at: now, keys },
                );
            }
        },
        _ => {
            lemma_same_places(a.w, a.on_update(update, scores, now).w);
        },
    }
}

pub(crate) proof fn lemma_auction_updates(
    a: AuctionWorld,
    updates: Seq<UpdateModel>,
    scores: Seq<Seq<u64>>,
    now: u64,
    n: int,
)
    requires
        orderly(a.w),
    ensures
        keeps(a.w, a.on_updates(updates, scores, now, n).w),
    decreases n,
{
    if n > 0 {
        lemma_auction_updates(a, updates, scores, now, n - 1);
        lemma_auction_update(
            a.on_updates(updates, scores, now, n - 1),
            updates[n - 1],
            scores[n - 1],
            now,
        );
    }
}

/// What is picked are waiting transactions, each once.
pub(crate) proof fn lemma_picked_distinct(
    holders: Holders,
    b: BridgeModel,
    checked: Seq<PriorityId>,
    budget: u64,
    n: int,
)
    requires
        0 <= n <= checked.len(),
        distinct_checked(checked),
    ensures
        ({
            let picked = pick_upto(holders, b, checked, budget, n).picked;
            &&& forall|i: int|
                0 <= i < picked.len() ==> exists|k: int|
                    checked.len() - n <= k < checked.len() && #[trigger] picked[i]
                        == #[trigger] checked[k]
            &&& forall|i: int, j: int|
                0 <= i < j < picked.len() ==> (#[trigger] picked[i]).key != (
                #[trigger] picked[j]).key
        }),
    decreases n,
{
    if n > 0 {
        lemma_picked_distinct(holders, b, checked, budget, n - 1);
        let before = pick_upto(holders, b, checked, budget, n - 1).picked;
        let picked = pick_upto(holders, b, checked, budget, n).picked;
        let at = checked.len() - n;
        assert forall|i: int| 0 <= i < picked.len() implies exists|k: int|
            checked.len() - n <= k < checked.len() && #[trigger] picked[i]
                == #[trigger] checked[k] by {
            if i < before.len() {
                assert(picked[i] == before[i]);
                let k = choose|k: int|
                    checked.len() - (n - 1) <= k < checked.len() && before[i]
                        == #[trigger] checked[k];
                assert(picked[i] == checked[k]);
            } else {
                assert(picked[i] == checked[at]);
            }
        }
        assert forall|i: int, j: int| 0 <= i < j < picked.len() implies (#[trigger] picked[i]).key
            != (#[trigger] picked[j]).key by {
            assert(picked[i] == before[i]);
            let k = choose|k: int|
                checked.len() - (n - 1) <= k < checked.len() && before[i] == #[trigger] checked[k];
            if j < before.len() {
                assert(picked[j] == before[j]);
            } else {
                assert(picked[j] == checked[at] && at < k);
            }
        }
    }
}

/// What was picked no longer waits.
proof fn lemma_remove_picked(w: World, picked: Seq<PriorityId>, n: int)
    requires
        orderly(w),
        0 <= n <= picked.len(),
        forall|i: int| 0 <= i < picked.len() ==> w.s.checked.contains(#[trigger] picked[i]),
        forall|i: int, j: int|
            0 <= i < j < picked.len() ==> (#[trigger] picked[i]).key != (#[trigger] picked[j]).key,
    ensures
        ({
            let after = w.remove_checked_upto(picked, n);
            &&& orderly(after)
            &&& forall|i: int| 0 <= i < n ==> loose(after).contains((#[trigger] picked[i]).key)
            &&& forall|i: int|
                n <= i < picked.len() ==> after.s.checked.contains(#[trigger] picked[i])
            &&& loose(w).subset_of(loose(after))
            &&& forall|key: u64| #[trigger]
                loose(after).contains(key) ==> loose(w).contains(key) || exists|i: int|
                    0 <= i < n && (#[trigger] picked[i]).key == key
            &&& extends(w.b.actions, after.b.actions)
        }),
    decreases n,
{
    if n > 0 {
        lemma_remove_picked(w, picked, n - 1);
        let before = w.remove_checked_upto(picked, n - 1);
        let id = picked[n - 1];
        lemma_remove_checked(before, id);
        assert(before.s.checked.contains(id));
        assert(increasing::<PriorityId>(before.s.checked)) by {
            reveal(orderly);
        }
        lemma_without_item::<PriorityId>(before.s.checked, id);
        let after = w.remove_checked_upto(picked, n);
        assert forall|key: u64| #[trigger] loose(after).contains(key) implies loose(w).contains(key)
            || exists|i: int| 0 <= i < n && (#[trigger] picked[i]).key == key by {
            if key == id.key {
                assert(picked[n - 1].key == key);
            }
        }
    }
}

pub(crate) proof fn lemma_auction_transactions(a: AuctionWorld, budget: u64, worker: usize)
    requires
        orderly(a.w),
    ensures
        frees(a.w, a.try_transactions(budget, worker).0.w, a.try_transactions(budget, worker).2),
        a.try_transactions(budget, worker).2.len() == 0 ==> a.try_transactions(budget, worker).0
            == a,
{
    lemma_nothing_freed(a.w);
    let checked = a.w.s.checked;
    let n = if checked.len() < SEARCH_LIMIT {
        checked.len() as int
    } else {
        SEARCH_LIMIT as int
    };
    let picked = pick_upto(a.held, a.w.b, checked, budget, n).picked;
    let (next, _, batch) = a.try_transactions(budget, worker);
    if picked.len() > 0 {
        assert(distinct_checked(checked)) by {
            reveal(orderly);
        }
        lemma_picked_distinct(a.held, a.w.b, checked, budget, n);
        let sent = World {
            b: a.w.b.scheduled(
                BatchModel {
                    worker,
                    transactions: batch,
                    max_working_slot: (a.w.b.progress.current_slot + 1) as u64,
                    flags: EXECUTE_FLAGS,
                },
            ),
            ..a.w
        };
        lemma_same_places(a.w, sent);
        assert forall|i: int| 0 <= i < picked.len() implies sent.s.checked.contains(
            #[trigger] picked[i],
        ) by {
            let k = choose|k: int|
                checked.len() - n <= k < checked.len() && picked[i] == #[trigger] checked[k];
            assert(checked[k] == picked[i]);
        }
        lemma_remove_picked(sent, picked, picked.len() as int);
        assert forall|i: int, j: int| 0 <= i < j < batch.len() implies (#[trigger] batch[i]).key != (
        #[trigger] batch[j]).key by {
            assert(batch[i].key == picked[i].key && batch[j].key == picked[j].key);
        }
        assert forall|key: u64| #[trigger] message_keys(batch).contains(key) implies loose(
            next.w,
        ).contains(key) by {
            let i = choose|i: int| 0 <= i < batch.len() && (#[trigger] batch[i]).key == key;
            assert(picked[i].key == key);
        }
        assert forall|key: u64| #[trigger] loose(next.w).contains(key) implies loose(a.w).contains(
            key,
        ) || message_keys(batch).contains(key) by {
            if !loose(a.w).contains(key) {
                let i = choose|i: int| 0 <= i < picked.len() && (#[trigger] picked[i]).key == key;
                assert(batch[i].key == key);
            }
        }
    }
}

proof fn lemma_dequeue_extends(w: World, keys: Seq<u64>, n: int)
    ensures
        extends(w.b.actions, w.dequeue_upto(keys, n).b.actions),
        w.dequeue_upto(keys, n).s == w.s,
    decreases n,
{
    if n > 0 {
        lemma_dequeue_extends(w, keys, n - 1);
    }
}

pub(crate) proof fn lemma_auction_bundle(a: AuctionWorld, budget: u64, worker: usize)
    requires
        orderly(a.w),
    ensures
        frees(a.w, a.try_bundle(budget, worker).0.w, a.try_bundle(budget, worker).2),
{
    lemma_nothing_freed(a.w);
    let bundles = a.w.s.bundles;
    if !(bundles.len() == 0 || bundles.last().cost > budget || !a.can_lock_keys(
        bundles.last().keys,
    )) {
        let bundle = bundles.last();
        let n = bundle.keys.len() as int;
        if acquire_upto(a.held, a.w.b, bundle.keys, n) is Some {
            let (next, _, batch) = a.try_bundle(budget, worker);
            let message = World {
                b: a.w.b.scheduled(
                    BatchModel {
                        worker,
                        transactions: batch,
                        max_working_slot: (a.w.b.progress.current_slot + 1) as u64,
                        flags: EXECUTE_BUNDLE_FLAGS,
                    },
                ),
                ..a.w
            };
            lemma_dequeue_places(message, bundle.keys, n);
            lemma_dequeue_extends(message, bundle.keys, n);
            let rest = bundles.drop_last();
            let at = bundles.len() - 1;
            assert(rest =~= bundles.remove(at));
            lemma_take_bundle(a.w, at, rest);
            lemma_same_places(World { s: CoreModel { bundles: rest, ..a.w.s }, ..a.w }, next.w);
            lemma_bundle_message_keys(bundle.keys, bundle.cost);
        }
    }
}

pub(crate) proof fn lemma_auction_best(a: AuctionWorld, budget: u64, worker: usize)
    requires
        orderly(a.w),
    ensures
        frees(a.w, a.try_best(budget, worker).0.w, a.try_best(budget, worker).2),
{
    lemma_auction_bundle(a, budget, worker);
    lemma_auction_transactions(a, budget, worker);
    let (bundled, _, batch) = a.try_bundle(budget, worker);
    if batch.len() == 0 {
        assert(message_keys(batch) =~= Set::empty());
        lemma_auction_transactions(bundled, budget, worker);
    }
}

pub(crate) proof fn lemma_auction_execute(a: AuctionWorld, budget: u64, worker: int, n: int)
    requires
        orderly(a.w),
    ensures
        keeps(a.w, a.execute_from(budget, worker, n).w),
        extends(a.w.b.actions, a.execute_from(budget, worker, n).w.b.actions),
    decreases n - worker,
{
    if worker >= n || budget == 0 {
    } else if a.w.b.workers[worker].len != 0 {
        lemma_auction_execute(a, budget, worker + 1, n);
    } else {
        let (next, left, batch) = a.try_best(budget, worker as usize);
        lemma_auction_best(a, budget, worker as usize);
        if batch.len() == 0 {
            assert(message_keys(batch) =~= Set::empty());
        } else {
            lemma_freed_started(a.w, next.w, batch);
            lemma_auction_execute(
                AuctionWorld { w: next.w.start_batch(batch), ..next },
                left,
                worker + 1,
                n,
            );
        }
    }
}

/// A round of the auction scheduler keeps each transaction that it holds in one
/// place, and loses none: what it neither holds nor has let go of, it has sent to
/// be checked.
pub proof fn lemma_auction_round(
    a: AuctionWorld,
    input: PollModel,
    tpu_scores: Seq<u64>,
    update_scores: Seq<Seq<u64>>,
)
    requires
        orderly(a.w),
        forall|i: int|
            0 <= i < input.responses.len() ==> answers(
                (#[trigger] a.check_slot_roll(input.progress, input.now).on_responses(
                    input.responses,
                    i,
                )).w,
                input.responses[i].0,
                input.responses[i].1,
            ),
    ensures
        orderly(a.poll(input, tpu_scores, update_scores).w),
        loose(a.poll(input, tpu_scores, update_scores).w).subset_of(
            loose(a.w).union(asked(a.poll(input, tpu_scores, update_scores).w.b.actions)),
        ),
{
    let now = input.now;
    lemma_auction_roll(a, input.progress, now);
    let rolled = a.check_slot_roll(input.progress, now);
    let n = input.responses.len() as int;
    lemma_auction_responses(rolled, input.responses, n);
    let answered = rolled.on_responses(input.responses, n);
    let limit = round_limit(answered.is_leader());
    let additional = if input.tpu.len() < limit {
        input.tpu.len() as int
    } else {
        limit
    };
    lemma_make_room(answered.w, additional as nat);
    let roomy = AuctionWorld { w: answered.w.make_room(additional as nat), ..answered };
    lemma_auction_tpu_upto(roomy, input.tpu, tpu_scores, additional);
    let drained = answered.drain_tpu(input.tpu, tpu_scores, limit);
    lemma_drop_expired(drained.w, now);
    let fresh = AuctionWorld { w: drained.w.drop_expired_bundles(now), ..drained };
    lemma_auction_updates(fresh, input.updates, update_scores, now, input.updates.len() as int);
    let taken = a.take_in(input, tpu_scores, update_scores).0;
    lemma_schedule_checks(taken.w);
    let checks = AuctionWorld { w: taken.w.schedule_checks(), ..taken };
    if answered.is_leader() {
        let budget = crate::worker::budget_of(
            checks.w.b.progress,
            checks.w.s.runtime.block_fill_cutoff,
            checks.w.s.in_flight_cus,
        ) as u64;
        let executed = checks.schedule_execute();
        lemma_auction_execute(
            checks,
            budget,
            EXECUTE_WORKER_START as int,
            checks.w.b.workers.len() as int,
        );
        lemma_asked_stays(checks.w.b.actions, executed.w.b.actions);
        lemma_same_places(executed.w, executed.w.start_recheck());
    }
}

} // verus!
