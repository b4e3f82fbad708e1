//! No transaction that names a filtered account waits for anything.
//!
//! Filtered are, among others, the accounts of the tip programs. The scheduler's
//! own transactions name these: they are started as soon as they are made.

use vstd::prelude::*;

use crate::auction_model::{auction_priority_of, bid_values, capped_score, AuctionWorld};
use crate::batch_model::{bundle_values, BatchWorld};
use crate::bridge::{
    BridgeModel, KeyedTransactionMeta, ProgressMessage, TxDecision, EXECUTE_WORKER_START,
};
use crate::costs::{bundle_priority_of, priority_and_cost};
use crate::jito::UpdateModel;
use crate::lifecycle::{bundle_keys, checked_keys, deferred_keys, orderly, unchecked_keys};
use crate::scheduler_model::{scan_upto, World};
use crate::shared::{BundleModel, PriorityId, BUNDLE_MARKER};
use crate::still::{
    lemma_auction_best_still, lemma_auction_check_still, lemma_batch_best_still,
    lemma_batch_check_still, lemma_drop_expired_still, lemma_executed_still,
    lemma_insert_with_capacity_still, lemma_make_room_still, lemma_roll_still, lemma_schedule_checks_still, lemma_still_chain,
    lemma_store_bundle_still, still,
};
use crate::worker::{budget_of, round_limit, ExecutionResponse, PollModel, ResponseModel};

verus! {

/// A transaction that names a filtered account executes, or was let go of.
#[verifier::opaque]
pub open spec fn clean(w: World) -> bool {
    forall|key: u64| #[trigger] w.filtered(key) ==> w.s.executing.contains_key(key)
}

/// No transaction of `b` is new, and each names the accounts that it named.
pub open spec fn names_kept(a: BridgeModel, b: BridgeModel) -> bool {
    forall|key: u64| #[trigger]
        b.transactions.contains_key(key) ==> a.transactions.contains_key(key)
            && b.transactions[key].fields.account_keys == a.transactions[key].fields.account_keys
}

/// Between `a` and `b` nothing came in and nothing stopped to execute.
pub open spec fn calm(a: World, b: World) -> bool {
    &&& b.s.filter_keys == a.s.filter_keys
    &&& names_kept(a.b, b.b)
    &&& forall|key: u64| #[trigger]
        a.s.executing.contains_key(key) ==> b.s.executing.contains_key(key)
}

proof fn lemma_calm(a: World, b: World)
    requires
        clean(a),
        calm(a, b),
    ensures
        clean(b),
{
    reveal(clean);
    assert forall|key: u64| #[trigger] b.filtered(key) implies b.s.executing.contains_key(key) by {
        assert(a.filtered(key));
    }
}

proof fn lemma_still_clean(a: World, b: World)
    requires
        clean(a),
        still(a, b),
    ensures
        clean(b),
{
    lemma_calm(a, b);
}

/// Where all is in order and clean, nothing that waits names a filtered account.
pub proof fn lemma_nothing_filtered_waits(w: World, key: u64)
    requires
        orderly(w),
        clean(w),
        unchecked_keys(w.s.unchecked).contains(key) || checked_keys(w.s.checked).contains(key)
            || deferred_keys(w.s.deferred).contains(key) || bundle_keys(w.s.bundles).contains(key),
    ensures
        !w.filtered(key),
{
    reveal(orderly);
    reveal(clean);
}

/// A scheduler without transactions is clean.
pub proof fn lemma_started_clean(w: World)
    requires
        w.b.transactions.dom() == Set::<u64>::empty(),
    ensures
        clean(w),
{
    reveal(clean);
}

/// All but some transactions are clean.
#[verifier::opaque]
pub open spec fn clean_but(w: World, keys: Set<u64>) -> bool {
    forall|key: u64| #[trigger]
        w.filtered(key) ==> w.s.executing.contains_key(key) || keys.contains(key)
}

proof fn lemma_still_but(a: World, b: World, keys: Set<u64>)
    requires
        clean_but(a, keys),
        still(a, b),
    ensures
        clean_but(b, keys),
{
    reveal(clean_but);
    assert forall|key: u64| #[trigger] b.filtered(key) implies b.s.executing.contains_key(key)
        || keys.contains(key) by {
        assert(a.filtered(key));
    }
}

/// A transaction that does not name a filtered account is clean.
proof fn lemma_kept_clean(w: World, key: u64)
    requires
        clean_but(w, set![key]),
        !w.filtered(key),
    ensures
        clean(w),
{
    reveal(clean_but);
    reveal(clean);
}

/// What was let go of is clean.
proof fn lemma_dropped_clean(w: World, key: u64)
    requires
        clean_but(w, set![key]),
    ensures
        clean(w.drop_tx(key)),
{
    reveal(clean_but);
    reveal(clean);
    let after = w.drop_tx(key);
    assert forall|k: u64| #[trigger] after.filtered(k) implies after.s.executing.contains_key(k) by {
        assert(w.filtered(k));
    }
}

proof fn lemma_received_clean(w: World, packet: Seq<u8>, simple_vote: bool)
    requires
        clean(w),
    ensures
        match w.b.received(packet, simple_vote) {
            (b, Some(key)) => clean_but(World { b, ..w }, set![key]),
            (b, None) => b == w.b,
        },
{
    reveal(clean);
    reveal(clean_but);
    if let (b, Some(key)) = w.b.received(packet, simple_vote) {
        let after = World { b, ..w };
        assert forall|k: u64| #[trigger] after.filtered(k) implies after.s.executing.contains_key(k)
            || set![key].contains(k) by {
            if k != key {
                assert(w.filtered(k));
            }
        }
    }
}

proof fn lemma_inserted_clean(w: World, packet: Seq<u8>, keys: Set<u64>)
    requires
        clean_but(w, keys),
    ensures
        match w.b.inserted(packet) {
            (b, Some(key)) => clean_but(World { b, ..w }, keys.insert(key)),
            (b, None) => b == w.b,
        },
{
    reveal(clean_but);
    if let (b, Some(key)) = w.b.inserted(packet) {
        let after = World { b, ..w };
        assert forall|k: u64| #[trigger] after.filtered(k) implies after.s.executing.contains_key(k)
            || keys.insert(key).contains(k) by {
            if k != key {
                assert(w.filtered(k));
            }
        }
    }
}

proof fn lemma_clean_but_none(w: World)
    ensures
        clean(w) <==> clean_but(w, Set::empty()),
{
    reveal(clean);
    reveal(clean_but);
}

/// A transaction of the scheduler's own executes, or was let go of.
proof fn lemma_tips_clean(w: World, init: u64, change: u64, after: World)
    requires
        clean_but(w, set![init, change]),
        after == w.drop_tx(init).drop_tx(change) || {
            &&& calm(w, after)
            &&& after.s.executing.contains_key(init)
            &&& after.s.executing.contains_key(change)
        },
    ensures
        clean(after),
{
    reveal(clean);
    reveal(clean_but);
    assert forall|k: u64| #[trigger] after.filtered(k) implies after.s.executing.contains_key(k) by {
        assert(w.filtered(k));
    }
}

proof fn lemma_scan_clean(w: World, packets: Seq<Seq<u8>>, values: Seq<Option<(u64, u64)>>, n: int)
    requires
        clean(w),
    ensures
        ({
            let scan = scan_upto(w.b, packets, values, n);
            clean_but(World { b: scan.b, ..w }, scan.keys.to_set())
        }),
    decreases n,
{
    let scan = scan_upto(w.b, packets, values, n);
    if n <= 0 {
        lemma_clean_but_none(w);
        assert(scan.keys.to_set() =~= Set::empty());
    } else {
        lemma_scan_clean(w, packets, values, n - 1);
        let before = scan_upto(w.b, packets, values, n - 1);
        if before.totals is Some {
            lemma_inserted_clean(
                World { b: before.b, ..w },
                packets[n - 1],
                before.keys.to_set(),
            );
            if let (_, Some(key)) = before.b.inserted(packets[n - 1]) {
                assert(scan.keys.to_set() =~= before.keys.to_set().insert(key)) by {
                    assert forall|k: u64| scan.keys.contains(k) <==> before.keys.contains(k) || k
                        == key by {
                        if before.keys.contains(k) {
                            let i = before.keys.index_of(k);
                            assert(scan.keys[i] == k);
                        }
                        assert(scan.keys[before.keys.len() as int] == key);
                    }
                }
            }
        }
    }
}

proof fn lemma_dropped_upto(b: BridgeModel, keys: Seq<u64>, n: int)
    requires
        0 <= n <= keys.len(),
    ensures
        names_kept(b, b.dropped_upto(keys, n)),
        forall|j: int|
            0 <= j < n ==> !b.dropped_upto(keys, n).transactions.contains_key(#[trigger] keys[j]),
    decreases n,
{
    if n > 0 {
        lemma_dropped_upto(b, keys, n - 1);
    }
}

proof fn lemma_scan_bundle_clean(
    w: World,
    packets: Seq<Seq<u8>>,
    values: Seq<Option<(u64, u64)>>,
)
    requires
        clean(w),
    ensures
        clean(w.scan_bundle(packets, values).0),
{
    let n = packets.len() as int;
    let scan = scan_upto(w.b, packets, values, n);
    lemma_scan_clean(w, packets, values, n);
    let m = scan.keys.len() as int;
    lemma_dropped_upto(scan.b, scan.keys, m);
    let taken = World { b: scan.b, ..w };
    let (after, kept) = w.scan_bundle(packets, values);
    reveal(clean);
    reveal(clean_but);
    assert forall|k: u64| #[trigger] after.filtered(k) implies after.s.executing.contains_key(k) by {
        assert(taken.filtered(k));
        if scan.keys.to_set().contains(k) {
            let j = scan.keys.index_of(k);
            assert(scan.keys[j] == k);
        }
    }
}

/// What a worker answers about the scheduler's own transactions carries the mark
/// that they were sent with.
pub open spec fn marked(w: World, meta: PriorityId, response: ResponseModel) -> bool {
    !(response is Check) && w.filtered(meta.key) ==> meta.priority == BUNDLE_MARKER
}

proof fn lemma_stopped_clean(w: World, key: u64)
    requires
        clean(w),
    ensures
        clean_but(w.stop_executing(key), set![key]),
        w.stop_executing(key).filtered(key) == w.filtered(key),
{
    reveal(clean);
    reveal(clean_but);
    let after = w.stop_executing(key);
    assert forall|k: u64| #[trigger] after.filtered(k) implies after.s.executing.contains_key(k)
        || set![key].contains(k) by {
        assert(w.filtered(k));
    }
}

proof fn lemma_clean_but_any(w: World, key: u64)
    requires
        clean(w),
    ensures
        clean_but(w, set![key]),
{
    reveal(clean);
    reveal(clean_but);
}

proof fn lemma_unprocessed_clean(w: World, meta: PriorityId)
    requires
        clean(w),
        w.filtered(meta.key) ==> meta.priority == BUNDLE_MARKER,
    ensures
        clean_but(w.unprocessed(meta).0, set![meta.key]),
        w.unprocessed(meta).1 == TxDecision::Keep ==> clean(w.unprocessed(meta).0),
{
    lemma_clean_but_any(w, meta.key);
    if w.s.executing.contains_key(meta.key) {
        let stopped = w.stop_executing(meta.key);
        lemma_stopped_clean(w, meta.key);
        let after = w.unprocessed(meta).0;
        assert(still(stopped, after));
        lemma_still_but(stopped, after, set![meta.key]);
        if meta.priority != BUNDLE_MARKER {
            lemma_kept_clean(stopped, meta.key);
            lemma_still_clean(stopped, after);
        }
    }
}

proof fn lemma_executed_clean(w: World, meta: PriorityId, rep: ExecutionResponse)
    requires
        clean(w),
        w.filtered(meta.key) ==> meta.priority == BUNDLE_MARKER,
    ensures
        clean_but(w.executed(meta, rep).0, set![meta.key]),
        w.executed(meta, rep).1 == TxDecision::Keep ==> clean(w.executed(meta, rep).0),
{
    let stopped = w.stop_executing(meta.key);
    lemma_stopped_clean(w, meta.key);
    lemma_executed_still(w, meta, rep);
    let after = w.executed(meta, rep).0;
    lemma_still_but(stopped, after, set![meta.key]);
    if w.executed(meta, rep).1 == TxDecision::Keep {
        lemma_kept_clean(stopped, meta.key);
        lemma_still_clean(stopped, after);
    }
}

proof fn lemma_mark_calm(w: World, batch: Seq<KeyedTransactionMeta>, n: int)
    ensures
        calm(w, w.mark_executing_upto(batch, n)),
    decreases n,
{
    if n > 0 {
        lemma_mark_calm(w, batch, n - 1);
    }
}

proof fn lemma_refused_clean(w: World, key: u64)
    requires
        clean_but(w, set![key]),
    ensures
        clean(w.refuse_packet(key)),
        clean(w.filter_packet(key)),
{
    reveal(clean);
    reveal(clean_but);
    let refused = w.refuse_packet(key);
    assert forall|k: u64| #[trigger] refused.filtered(k) implies refused.s.executing.contains_key(
        k,
    ) by {
        assert(w.filtered(k));
    }
    let filtered = w.filter_packet(key);
    assert forall|k: u64| #[trigger] filtered.filtered(k) implies filtered.s.executing.contains_key(
        k,
    ) by {
        assert(w.filtered(k));
    }
}

proof fn lemma_batch_tips_clean(b: BatchWorld)
    requires
        clean(b.w),
    ensures
        clean(b.become_tip_receiver().w),
{
    if let Some((init, change)) = b.w.s.tip_packets() {
        lemma_clean_but_none(b.w);
        lemma_inserted_clean(b.w, init, Set::empty());
        if let (first, Some(init_key)) = b.w.b.inserted(init) {
            let one = World { b: first, ..b.w };
            assert(Set::empty().insert(init_key) =~= set![init_key]);
            lemma_inserted_clean(one, change, set![init_key]);
            match first.inserted(change) {
                (second, Some(change_key)) => {
                    let two = World { b: second, ..b.w };
                    assert(set![init_key].insert(change_key) =~= set![init_key, change_key]);
                    lemma_tips_clean(two, init_key, change_key, b.submit_tips(init, change).w);
                },
                (second, None) => {
                    lemma_dropped_clean(World { b: second, ..b.w }, init_key);
                },
            }
        }
    }
}

proof fn lemma_batch_roll_clean(b: BatchWorld, update: Option<ProgressMessage>, now: u64)
    requires
        clean(b.w),
    ensures
        clean(b.check_slot_roll(update, now).w),
{
    let noted = b.w.note_progress(update, now);
    assert(still(b.w, noted));
    lemma_still_clean(b.w, noted);
    lemma_roll_still(noted);
    let rolled = noted.roll_slot();
    lemma_still_clean(noted, rolled);
    if noted.becomes_leader() {
        assert(still(rolled, rolled.report_leader()));
        lemma_still_clean(rolled, rolled.report_leader());
        lemma_batch_tips_clean(BatchWorld { w: rolled.report_leader(), ..b });
    }
}

proof fn lemma_batch_response_clean(b: BatchWorld, meta: PriorityId, response: ResponseModel)
    requires
        clean(b.w),
        marked(b.w, meta, response),
    ensures
        clean(b.on_response(meta, response).w),
{
    reveal(BatchWorld::on_response);
    let key = meta.key;
    if b.w.b.transactions.contains_key(key) {
        let (next, decision) = b.decide(meta, response);
        lemma_clean_but_any(b.w, key);
        match response {
            ResponseModel::Unprocessed => {
                lemma_unprocessed_clean(b.w, meta);
            },
            ResponseModel::Execute(rep) => {
                if b.w.s.executing.contains_key(key) {
                    lemma_executed_clean(b.w, meta, rep);
                }
            },
            ResponseModel::Check(rep, resolved_keys) => {
                lemma_batch_check_still(b, meta, rep, resolved_keys);
                let checked = b.on_check(meta, rep, resolved_keys).0;
                lemma_still_clean(b.w, checked.w);
                lemma_calm(checked.w, next.w);
                lemma_clean_but_any(next.w, key);
            },
        }
        if decision == TxDecision::Drop {
            lemma_dropped_clean(next.w, key);
        }
    }
}

proof fn lemma_batch_responses_clean(
    b: BatchWorld,
    responses: Seq<(PriorityId, ResponseModel)>,
    n: int,
)
    requires
        clean(b.w),
        0 <= n <= responses.len(),
        forall|i: int|
            0 <= i < n ==> marked(
                (#[trigger] b.on_responses(responses, i)).w,
                responses[i].0,
                responses[i].1,
            ),
    ensures
        clean(b.on_responses(responses, n).w),
    decreases n,
{
    if n > 0 {
        lemma_batch_responses_clean(b, responses, n - 1);
        lemma_batch_response_clean(
            b.on_responses(responses, n - 1),
            responses[n - 1].0,
            responses[n - 1].1,
        );
    }
}

proof fn lemma_batch_tpu_clean(b: BatchWorld, packet: Seq<u8>, simple_vote: bool)
    requires
        clean(b.w),
    ensures
        clean(b.on_tpu(packet, simple_vote).w),
{
    reveal(BatchWorld::on_tpu);
    lemma_received_clean(b.w, packet, simple_vote);
    if let (received, Some(key)) = b.w.b.received(packet, simple_vote) {
        let taken = BatchWorld { w: World { b: received, ..b.w }, ..b };
        let priority = priority_and_cost(b.w.b.runtime, packet);
        let (next, decision) = taken.admit_tpu(key, priority);
        assert(still(taken.w, next.w));
        lemma_still_but(taken.w, next.w, set![key]);
        if decision == TxDecision::Keep {
            lemma_kept_clean(taken.w, key);
            lemma_still_clean(taken.w, next.w);
        } else {
            lemma_dropped_clean(next.w, key);
        }
    }
}

proof fn lemma_batch_tpu_upto_clean(b: BatchWorld, tpu: Seq<(Seq<u8>, bool)>, n: int)
    requires
        clean(b.w),
    ensures
        clean(b.on_tpu_upto(tpu, n).w),
    decreases n,
{
    if n > 0 {
        lemma_batch_tpu_upto_clean(b, tpu, n - 1);
        lemma_batch_tpu_clean(
            b.on_tpu_upto(tpu, n - 1),
            tpu[n - 1].0,
            tpu[n - 1].1,
        );
    }
}

proof fn lemma_batch_packet_clean(b: BatchWorld, packet: Seq<u8>)
    requires
        clean(b.w),
    ensures
        clean(b.on_packet(packet).w),
{
    lemma_clean_but_none(b.w);
    lemma_inserted_clean(b.w, packet, Set::empty());
    if let (inserted, Some(key)) = b.w.b.inserted(packet) {
        assert(Set::empty().insert(key) =~= set![key]);
        let taken = World { b: inserted, ..b.w };
        let after = b.on_packet(packet).w;
        match priority_and_cost(b.w.b.runtime, packet) {
            Some((priority, cost)) if !taken.filtered(key) => {
                let id = PriorityId { priority, cost, key };
                lemma_kept_clean(taken, key);
                let evicted = taken.evict_unchecked();
                assert(still(taken, evicted));
                assert(still(taken, after) || still(evicted, after));
                if still(evicted, after) {
                    lemma_still_chain(taken, evicted, after);
                }
                lemma_still_clean(taken, after);
            },
            _ => {
                lemma_refused_clean(taken, key);
            },
        }
    }
}

proof fn lemma_batch_update_clean(b: BatchWorld, update: UpdateModel, now: u64)
    requires
        clean(b.w),
    ensures
        clean(b.on_update(update, now).w),
{
    reveal(BatchWorld::on_update);
    let after = b.on_update(update, now).w;
    match update {
        UpdateModel::Packet(packet) => {
            lemma_batch_packet_clean(b, packet);
        },
        UpdateModel::Bundle(packets) => {
            let values = bundle_values(b.w.b.runtime, packets);
            lemma_scan_bundle_clean(b.w, packets, values);
            if let (w, Some((keys, cost, value))) = b.w.scan_bundle(packets, values) {
                lemma_store_bundle_still(
                    w,
                    BundleModel {
                        priority: bundle_priority_of(cost, value),
                        cost,
                        received_at: now,
                        keys,
                    },
                );
                lemma_still_clean(w, after);
            }
        },
        _ => {
            assert(still(b.w, after));
            lemma_still_clean(b.w, after);
        },
    }
}

proof fn lemma_batch_updates_clean(b: BatchWorld, updates: Seq<UpdateModel>, now: u64, n: int)
    requires
        clean(b.w),
    ensures
        clean(b.on_updates(updates, now, n).w),
    decreases n,
{
    if n > 0 {
        lemma_batch_updates_clean(b, updates, now, n - 1);
        lemma_batch_update_clean(
            b.on_updates(updates, now, n - 1),
            updates[n - 1],
            now,
        );
    }
}

proof fn lemma_batch_execute_clean(b: BatchWorld, budget: u64, worker: int, n: int)
    requires
        clean(b.w),
    ensures
        clean(b.execute_from(budget, worker, n).w),
    decreases n - worker,
{
    if worker >= n || budget == 0 {
    } else if b.w.b.workers[worker].len != 0 {
        lemma_batch_execute_clean(b, budget, worker + 1, n);
    } else {
        let (next, left, batch) = b.try_best(budget, worker as usize);
        lemma_batch_best_still(b, budget, worker as usize);
        lemma_still_clean(b.w, next.w);
        if batch.len() > 0 {
            lemma_mark_calm(next.w, batch, batch.len() as int);
            lemma_calm(next.w, next.w.start_batch(batch));
            lemma_batch_execute_clean(
                BatchWorld { w: next.w.start_batch(batch), ..next },
                left,
                worker + 1,
                n,
            );
        }
    }
}

/// A round of the batch scheduler lets no transaction that names a filtered account
/// wait: only the scheduler's own may name one, and they execute.
pub proof fn lemma_batch_round_clean(b: BatchWorld, input: PollModel)
    requires
        clean(b.w),
        forall|i: int|
            0 <= i < input.responses.len() ==> marked(
                (#[trigger] b.check_slot_roll(input.progress, input.now).on_responses(
                    input.responses,
                    i,
                )).w,
                input.responses[i].0,
                input.responses[i].1,
            ),
    ensures
        clean(b.poll(input).w),
{
    let now = input.now;
    lemma_batch_roll_clean(b, input.progress, now);
    let rolled = b.check_slot_roll(input.progress, now);
    let n = input.responses.len() as int;
    lemma_batch_responses_clean(rolled, input.responses, n);
    let answered = rolled.on_responses(input.responses, n);
    let limit = round_limit(answered.is_leader());
    let additional = if input.tpu.len() < limit {
        input.tpu.len() as int
    } else {
        limit
    };
    lemma_make_room_still(answered.w, additional as nat);
    let roomy = BatchWorld { w: answered.w.make_room(additional as nat), ..answered };
    lemma_still_clean(answered.w, roomy.w);
    lemma_batch_tpu_upto_clean(roomy, input.tpu, additional);
    let drained = answered.drain_tpu(input.tpu, limit);
    lemma_drop_expired_still(drained.w, now);
    let fresh = BatchWorld { w: drained.w.drop_expired_bundles(now), ..drained };
    lemma_still_clean(drained.w, fresh.w);
    lemma_batch_updates_clean(fresh, input.updates, now, input.updates.len() as int);
    let taken = b.take_in(input).0;
    let checks = BatchWorld { w: taken.w.schedule_checks(), ..taken };
    lemma_schedule_checks_still(taken.w);
    lemma_still_clean(taken.w, checks.w);
    if answered.is_leader() {
        let budget = budget_of(
            checks.w.b.progress,
            checks.w.s.runtime.block_fill_cutoff,
            checks.w.s.in_flight_cus,
        ) as u64;
        let executed = checks.schedule_execute();
        lemma_batch_execute_clean(
            checks,
            budget,
            EXECUTE_WORKER_START as int,
            checks.w.b.workers.len() as int,
        );
        assert(still(executed.w, executed.w.start_recheck()));
        lemma_still_clean(executed.w, executed.w.start_recheck());
    }
}

proof fn lemma_auction_tips_clean(a: AuctionWorld)
    requires
        clean(a.w),
    ensures
        clean(a.become_tip_receiver().w),
{
    if let Some((init, change)) = a.w.s.tip_packets() {
        lemma_clean_but_none(a.w);
        lemma_inserted_clean(a.w, init, Set::empty());
        if let (first, Some(init_key)) = a.w.b.inserted(init) {
            let one = World { b: first, ..a.w };
            assert(Set::empty().insert(init_key) =~= set![init_key]);
            lemma_inserted_clean(one, change, set![init_key]);
            match first.inserted(change) {
                (second, Some(change_key)) => {
                    let two = World { b: second, ..a.w };
                    assert(set![init_key].insert(change_key) =~= set![init_key, change_key]);
                    lemma_tips_clean(two, init_key, change_key, a.submit_tips(init, change).w);
                },
                (second, None) => {
                    lemma_dropped_clean(World { b: second, ..a.w }, init_key);
                },
            }
        }
    }
}

proof fn lemma_auction_roll_clean(a: AuctionWorld, update: Option<ProgressMessage>, now: u64)
    requires
        clean(a.w),
    ensures
        clean(a.check_slot_roll(update, now).w),
{
    let noted = a.w.note_progress_or_starve(update, now);
    assert(still(a.w, noted));
    lemma_still_clean(a.w, noted);
    lemma_roll_still(noted);
    let rolled = noted.roll_slot();
    lemma_still_clean(noted, rolled);
    if noted.becomes_leader() {
        assert(still(rolled, rolled.report_leader()));
        lemma_still_clean(rolled, rolled.report_leader());
        lemma_auction_tips_clean(AuctionWorld { w: rolled.report_leader(), ..a });
    }
}

proof fn lemma_auction_response_clean(a: AuctionWorld, meta: PriorityId, response: ResponseModel)
    requires
        clean(a.w),
        marked(a.w, meta, response),
    ensures
        clean(a.on_response(meta, response).w),
{
    reveal(AuctionWorld::on_response);
    let key = meta.key;
    if a.w.b.transactions.contains_key(key) {
        let (next, decision) = a.decide(meta, response);
        lemma_clean_but_any(a.w, key);
        match response {
            ResponseModel::Unprocessed => {
                lemma_unprocessed_clean(a.w, meta);
            },
            ResponseModel::Execute(rep) => {
                if a.w.s.executing.contains_key(key) {
                    lemma_executed_clean(a.w, meta, rep);
                }
            },
            ResponseModel::Check(rep, resolved_keys) => {
                lemma_auction_check_still(a, meta, rep, resolved_keys);
                let checked = a.on_check(meta, rep, resolved_keys).0;
                lemma_still_clean(a.w, checked.w);
                lemma_calm(checked.w, next.w);
                lemma_clean_but_any(next.w, key);
            },
        }
        if decision == TxDecision::Drop {
            lemma_dropped_clean(next.w, key);
        }
    }
}

proof fn lemma_auction_responses_clean(
    a: AuctionWorld,
    responses: Seq<(PriorityId, ResponseModel)>,
    n: int,
)
    requires
        clean(a.w),
        0 <= n <= responses.len(),
        forall|i: int|
            0 <= i < n ==> marked(
                (#[trigger] a.on_responses(responses, i)).w,
                responses[i].0,
                responses[i].1,
            ),
    ensures
        clean(a.on_responses(responses, n).w),
    decreases n,
{
    if n > 0 {
        lemma_auction_responses_clean(a, responses, n - 1);
        lemma_auction_response_clean(
            a.on_responses(responses, n - 1),
            responses[n - 1].0,
            responses[n - 1].1,
        );
    }
}

proof fn lemma_auction_tpu_clean(a: AuctionWorld, packet: Seq<u8>, simple_vote: bool, score: u64)
    requires
        clean(a.w),
    ensures
        clean(a.on_tpu(packet, simple_vote, score).w),
{
    reveal(AuctionWorld::on_tpu);
    lemma_received_clean(a.w, packet, simple_vote);
    if let (received, Some(key)) = a.w.b.received(packet, simple_vote) {
        let taken = AuctionWorld { w: World { b: received, ..a.w }, ..a };
        let priority = auction_priority_of(a.w.b.runtime, packet, score, a.min_score);
        let (next, decision) = taken.admit_tpu(key, priority);
        if let Some((priority, cost)) = priority {
            let id = PriorityId { priority, cost, key };
            lemma_insert_with_capacity_still(taken.w, id);
            let placed = taken.w.insert_with_capacity(id).0;
            assert(still(placed, placed.report_tpu(id)));
            lemma_still_chain(taken.w, placed, placed.report_tpu(id));
        }
        assert(still(taken.w, next.w));
        lemma_still_but(taken.w, next.w, set![key]);
        if decision == TxDecision::Keep {
            lemma_kept_clean(taken.w, key);
            lemma_still_clean(taken.w, next.w);
        } else {
            lemma_dropped_clean(next.w, key);
        }
    }
}

proof fn lemma_auction_tpu_upto_clean(
    a: AuctionWorld,
    tpu: Seq<(Seq<u8>, bool)>,
    scores: Seq<u64>,
    n: int,
)
    requires
        clean(a.w),
    ensures
        clean(a.on_tpu_upto(tpu, scores, n).w),
    decreases n,
{
    if n > 0 {
        lemma_auction_tpu_upto_clean(a, tpu, scores, n - 1);
        lemma_auction_tpu_clean(
            a.on_tpu_upto(tpu, scores, n - 1),
            tpu[n - 1].0,
            tpu[n - 1].1, scores[n - 1],
        );
    }
}

proof fn lemma_auction_packet_clean(a: AuctionWorld, packet: Seq<u8>, score: u64)
    requires
        clean(a.w),
    ensures
        clean(a.on_packet(packet, score).w),
{
    lemma_clean_but_none(a.w);
    lemma_inserted_clean(a.w, packet, Set::empty());
    if let (inserted, Some(key)) = a.w.b.inserted(packet) {
        assert(Set::empty().insert(key) =~= set![key]);
        let taken = World { b: inserted, ..a.w };
        let after = a.on_packet(packet, score).w;
        match auction_priority_of(a.w.b.runtime, packet, score, a.min_score) {
            Some((priority, cost)) if !taken.filtered(key) => {
                let id = PriorityId { priority, cost, key };
                lemma_kept_clean(taken, key);
                let evicted = taken.evict_unchecked();
                assert(still(taken, evicted));
                lemma_insert_with_capacity_still(taken, id);
                let placed = taken.insert_with_capacity(id).0;
                assert(still(placed, placed.report_packet(id)));
                assert(still(placed, placed.report_packet(id).drop_tx(key)));
                lemma_still_chain(taken, placed, placed.report_packet(id));
                lemma_still_chain(taken, placed, placed.report_packet(id).drop_tx(key));
                if taken.has_lookups(key) {
                    assert(still(taken, after) || still(evicted, after));
                    if still(evicted, after) {
                        lemma_still_chain(taken, evicted, after);
                    }
                }
                lemma_still_clean(taken, after);
            },
            _ => {
                lemma_refused_clean(taken, key);
            },
        }
    }
}

proof fn lemma_auction_update_clean(
    a: AuctionWorld,
    update: UpdateModel,
    scores: Seq<u64>,
    now: u64,
)
    requires
        clean(a.w),
    ensures
        clean(a.on_update(update, scores, now).w),
{
    reveal(AuctionWorld::on_update);
    let after = a.on_update(update, scores, now).w;
    match update {
        UpdateModel::Packet(packet) => {
            lemma_auction_packet_clean(a, packet, scores[0]);
        },
        UpdateModel::Bundle(packets) => {
            let values = bid_values(a.w.b.runtime, packets, scores, a.min_score);
            lemma_scan_bundle_clean(a.w, packets, values);
            if let (w, Some((keys, cost, value))) = a.w.scan_bundle(packets, values) {
                lemma_store_bundle_still(
                    w,
                    BundleModel {
                        priority: capped_score(value),
                        cost,
                        received_at: now,
                        keys,
                    },
                );
                lemma_still_clean(w, after);
            }
        },
        _ => {
            assert(still(a.w, after));
            lemma_still_clean(a.w, after);
        },
    }
}

proof fn lemma_auction_updates_clean(
    a: AuctionWorld,
    updates: Seq<UpdateModel>,
    scores: Seq<Seq<u64>>,
    now: u64,
    n: int,
)
    requires
        clean(a.w),
    ensures
        clean(a.on_updates(updates, scores, now, n).w),
    decreases n,
{
    if n > 0 {
        lemma_auction_updates_clean(a, updates, scores, now, n - 1);
        lemma_auction_update_clean(
            a.on_updates(updates, scores, now, n - 1),
            updates[n - 1], scores[n - 1],
            now,
        );
    }
}

proof fn lemma_auction_execute_clean(a: AuctionWorld, budget: u64, worker: int, n: int)
    requires
        clean(a.w),
    ensures
        clean(a.execute_from(budget, worker, n).w),
    decreases n - worker,
{
    if worker >= n || budget == 0 {
    } else if a.w.b.workers[worker].len != 0 {
        lemma_auction_execute_clean(a, budget, worker + 1, n);
    } else {
        let (next, left, batch) = a.try_best(budget, worker as usize);
        lemma_auction_best_still(a, budget, worker as usize);
        lemma_still_clean(a.w, next.w);
        if batch.len() > 0 {
            lemma_mark_calm(next.w, batch, batch.len() as int);
            lemma_calm(next.w, next.w.start_batch(batch));
            lemma_auction_execute_clean(
                AuctionWorld { w: next.w.start_batch(batch), ..next },
                left,
                worker + 1,
                n,
            );
        }
    }
}

/// A round of the auction scheduler lets no transaction that names a filtered account
/// wait: only the scheduler's own may name one, and they execute.
pub proof fn lemma_auction_round_clean(
    a: AuctionWorld,
    input: PollModel,
    tpu_scores: Seq<u64>,
    update_scores: Seq<Seq<u64>>,
)
    requires
        clean(a.w),
        forall|i: int|
            0 <= i < input.responses.len() ==> marked(
                (#[trigger] a.check_slot_roll(input.progress, input.now).on_responses(
                    input.responses,
                    i,
                )).w,
                input.responses[i].0,
                input.responses[i].1,
            ),
    ensures
        clean(a.poll(input, tpu_scores, update_scores).w),
{
    let now = input.now;
    lemma_auction_roll_clean(a, input.progress, now);
    let rolled = a.check_slot_roll(input.progress, now);
    let n = input.responses.len() as int;
    lemma_auction_responses_clean(rolled, input.responses, n);
    let answered = rolled.on_responses(input.responses, n);
    let limit = round_limit(answered.is_leader());
    let additional = if input.tpu.len() < limit {
        input.tpu.len() as int
    } else {
        limit
    };
    lemma_make_room_still(answered.w, additional as nat);
    let roomy = AuctionWorld { w: answered.w.make_room(additional as nat), ..answered };
    lemma_still_clean(answered.w, roomy.w);
    lemma_auction_tpu_upto_clean(roomy, input.tpu, tpu_scores, additional);
    let drained = answered.drain_tpu(input.tpu, tpu_scores, limit);
    lemma_drop_expired_still(drained.w, now);
    let fresh = AuctionWorld { w: drained.w.drop_expired_bundles(now), ..drained };
    lemma_still_clean(drained.w, fresh.w);
    lemma_auction_updates_clean(
        fresh,
        input.updates,
        update_scores,
        now,
        input.updates.len() as int,
    );
    let taken = a.take_in(input, tpu_scores, update_scores).0;
    let checks = AuctionWorld { w: taken.w.schedule_checks(), ..taken };
    lemma_schedule_checks_still(taken.w);
    lemma_still_clean(taken.w, checks.w);
    if answered.is_leader() {
        let budget = budget_of(
            checks.w.b.progress,
            checks.w.s.runtime.block_fill_cutoff,
            checks.w.s.in_flight_cus,
        ) as u64;
        let executed = checks.schedule_execute();
        lemma_auction_execute_clean(
            checks,
            budget,
            EXECUTE_WORKER_START as int,
            checks.w.b.workers.len() as int,
        );
        assert(still(executed.w, executed.w.start_recheck()));
        lemma_still_clean(executed.w, executed.w.start_recheck());
    }
}

} // verus!
