//! What the parts of a round are, and in which order they come.

use vstd::prelude::*;

use crate::auction_frames::lemma_auction_responses_steady;
use crate::auction_model::AuctionWorld;
use crate::batch_model::BatchWorld;
use crate::frames::lemma_responses_steady;
use crate::jito::UpdateModel;
use crate::ordered::{lemma_rank_bound, rank, with_item};
use crate::scheduler_model::{CoreModel, World};
use crate::shared::{BundleId, BundleModel};
use crate::worker::PollModel;

verus! {

/// Whether a scheduler is in the validator's slot, and a validator that leads was
/// seen to.
pub open spec fn settled(w: World) -> bool {
    &&& w.b.progress.current_slot == w.s.slot
    &&& w.b.progress.leader_state == 2 ==> w.s.stats.was_leader_ready
}

/// Whether the validator has not been silent for too long.
pub open spec fn heard(w: World, now: u64) -> bool {
    ||| w.s.last_progress_time == now
    ||| w.s.runtime.progress_timeout > 0 && now < w.s.last_progress_time
        + w.s.runtime.progress_timeout
}

/// A round begins with the validator's slot: what else arrived is taken in as if
/// the scheduler had moved on to it before. The batch scheduler.
pub proof fn lemma_batch_rolls_first(b: BatchWorld, input: PollModel)
    requires
        settled(b.check_slot_roll(input.progress, input.now).w),
    ensures
        b.take_in(input) == b.check_slot_roll(input.progress, input.now).take_in(
            PollModel { progress: None, ..input },
        ),
{
    let rolled = b.check_slot_roll(input.progress, input.now);
    assert(rolled.check_slot_roll(None, input.now) == rolled);
}

/// Then come the answers of the workers, all of them. The batch scheduler.
pub proof fn lemma_batch_answers_second(b: BatchWorld, input: PollModel)
    requires
        input.progress is None,
        settled(b.w),
    ensures
        b.take_in(input) == b.on_responses(input.responses, input.responses.len() as int).take_in(
            PollModel { responses: Seq::empty(), ..input },
        ),
{
    let n = input.responses.len() as int;
    lemma_responses_steady(b, input.responses, n);
    let answered = b.on_responses(input.responses, n);
    assert(b.check_slot_roll(None, input.now) == b);
    assert(answered.check_slot_roll(None, input.now) == answered);
    assert(answered.on_responses(Seq::empty(), 0) == answered);
}

/// Then come the transactions that the validator forwards, and then bundles that
/// are too old are let go of. The batch scheduler.
pub proof fn lemma_batch_transactions_third(b: BatchWorld, input: PollModel)
    requires
        input.progress is None,
        input.responses.len() == 0,
        input.updates.len() == 0,
        settled(b.w),
    ensures
        ({
            let limit = if b.w.b.progress.leader_state == 2 {
                128int
            } else {
                1024int
            };
            let drained = b.drain_tpu(input.tpu, limit);
            &&& b.take_in(input).0.w == drained.w.drop_expired_bundles(input.now)
            &&& b.take_in(input).0.locks == drained.locks
        }),
{
    assert(b.check_slot_roll(None, input.now) == b);
}

/// A round begins with the validator's slot: what else arrived is taken in as if
/// the scheduler had moved on to it before. The auction scheduler.
pub proof fn lemma_auction_rolls_first(
    a: AuctionWorld,
    input: PollModel,
    scores: Seq<u64>,
    update_scores: Seq<Seq<u64>>,
)
    requires
        settled(a.check_slot_roll(input.progress, input.now).w),
        heard(a.check_slot_roll(input.progress, input.now).w, input.now),
    ensures
        a.take_in(input, scores, update_scores) == a.check_slot_roll(
            input.progress,
            input.now,
        ).take_in(PollModel { progress: None, ..input }, scores, update_scores),
{
    let rolled = a.check_slot_roll(input.progress, input.now);
    assert(rolled.w.note_progress_or_starve(None, input.now) == rolled.w);
    assert(rolled.check_slot_roll(None, input.now) == rolled);
}

/// Then come the answers of the workers, all of them. The auction scheduler.
pub proof fn lemma_auction_answers_second(
    a: AuctionWorld,
    input: PollModel,
    scores: Seq<u64>,
    update_scores: Seq<Seq<u64>>,
)
    requires
        input.progress is None,
        settled(a.w),
        heard(a.w, input.now),
        heard(a.on_responses(input.responses, input.responses.len() as int).w, input.now),
    ensures
        a.take_in(input, scores, update_scores) == a.on_responses(
            input.responses,
            input.responses.len() as int,
        ).take_in(PollModel { responses: Seq::empty(), ..input }, scores, update_scores),
{
    let n = input.responses.len() as int;
    lemma_auction_responses_steady(a, input.responses, n);
    let answered = a.on_responses(input.responses, n);
    assert(a.w.note_progress_or_starve(None, input.now) == a.w);
    assert(a.check_slot_roll(None, input.now) == a);
    assert(answered.w.note_progress_or_starve(None, input.now) == answered.w);
    assert(answered.check_slot_roll(None, input.now) == answered);
    assert(answered.on_responses(Seq::empty(), 0) == answered);
}

/// Then come the transactions that the validator forwards, and then bundles that
/// are too old are let go of. The auction scheduler.
pub proof fn lemma_auction_transactions_third(
    a: AuctionWorld,
    input: PollModel,
    scores: Seq<u64>,
    update_scores: Seq<Seq<u64>>,
)
    requires
        input.progress is None,
        input.responses.len() == 0,
        input.updates.len() == 0,
        settled(a.w),
        heard(a.w, input.now),
    ensures
        ({
            let limit = if a.w.b.progress.leader_state == 2 {
                128int
            } else {
                1024int
            };
            let drained = a.drain_tpu(input.tpu, scores, limit);
            &&& a.take_in(input, scores, update_scores).0.w == drained.w.drop_expired_bundles(
                input.now,
            )
            &&& a.take_in(input, scores, update_scores).0.held == drained.held
        }),
{
    assert(a.w.note_progress_or_starve(None, input.now) == a.w);
    assert(a.check_slot_roll(None, input.now) == a);
}

proof fn lemma_added(bundles: Seq<BundleModel>, x: BundleModel, y: BundleModel)
    requires
        with_item::<BundleId>(bundles, x).contains(y),
    ensures
        bundles.contains(y) || y == x,
{
    if !bundles.contains(x) {
        lemma_rank_bound::<BundleId>(bundles, x);
        let at = rank::<BundleId>(bundles, x) as int;
        let after = with_item::<BundleId>(bundles, x);
        let i = after.index_of(y);
        assert(after[i] == y);
        if i < at {
            assert(bundles[i] == y);
        } else if i > at {
            assert(bundles[i - 1] == y);
        }
    }
}

/// Whether no waiting bundle is too old.
pub open spec fn bundles_fresh(s: CoreModel, now: u64) -> bool {
    forall|bundle: BundleModel| #[trigger]
        s.bundles.contains(bundle) ==> now <= bundle.received_at + s.runtime.bundle_expiry
}

proof fn lemma_discarded_core(w: World, keys: Seq<u64>, n: int)
    ensures
        w.discard_upto(keys, n).s == w.s,
    decreases n,
{
    if n > 0 {
        lemma_discarded_core(w, keys, n - 1);
    }
}

proof fn lemma_reported_core(
    w: World,
    keys: Seq<u64>,
    priority: u64,
    action: crate::events::TransactionAction,
    n: int,
)
    ensures
        w.report_bundle_upto(keys, priority, action, n).s == w.s,
    decreases n,
{
    if n > 0 {
        lemma_reported_core(w, keys, priority, action, n - 1);
    }
}

proof fn lemma_queued_core(w: World, keys: Seq<u64>, n: int)
    ensures
        w.queue_upto(keys, n).s == w.s,
    decreases n,
{
    if n > 0 {
        lemma_queued_core(w, keys, n - 1);
    }
}

proof fn lemma_stored_fresh(w: World, bundle: BundleModel, now: u64)
    requires
        bundles_fresh(w.s, now),
        bundle.received_at == now,
    ensures
        bundles_fresh(w.store_bundle(bundle).s, now),
        w.store_bundle(bundle).s.runtime == w.s.runtime,
{
    let n = bundle.keys.len() as int;
    let action = w.bundle_ingest(bundle.keys);
    lemma_reported_core(w, bundle.keys, bundle.priority, action, n);
    let reported = w.report_bundle_upto(bundle.keys, bundle.priority, action, n);
    let evicted = reported.evict_bundle();
    if w.s.bundles.len() > 0 {
        let rest = w.s.bundles.drop_first();
        let dropped = World { s: CoreModel { bundles: rest, ..reported.s }, ..reported };
        let lowest = w.s.bundles.first().keys;
        lemma_discarded_core(dropped, lowest, lowest.len() as int);
    }
    lemma_queued_core(evicted, bundle.keys, n);
    let after = w.store_bundle(bundle);
    assert forall|other: BundleModel| #[trigger] after.s.bundles.contains(other) implies now
        <= other.received_at + after.s.runtime.bundle_expiry by {
        lemma_added(evicted.s.bundles, bundle, other);
        if evicted.s.bundles.contains(other) {
            let i = evicted.s.bundles.index_of(other);
            if evicted.s.bundles != w.s.bundles {
                assert(w.s.bundles[i + 1] == other);
            }
            assert(w.s.bundles.contains(other));
        }
    }
}

proof fn lemma_batch_update_fresh(b: BatchWorld, update: UpdateModel, now: u64)
    requires
        bundles_fresh(b.w.s, now),
    ensures
        bundles_fresh(b.on_update(update, now).w.s, now),
        b.on_update(update, now).w.s.runtime == b.w.s.runtime,
{
    reveal(BatchWorld::on_update);
    if let UpdateModel::Bundle(packets) = update {
        let values = crate::batch_model::bundle_values(b.w.b.runtime, packets);
        let (w, taken) = b.w.scan_bundle(packets, values);
        assert(w.s == b.w.s);
        if let Some((keys, cost, value)) = taken {
            lemma_stored_fresh(
                w,
                BundleModel {
                    priority: crate::costs::bundle_priority_of(cost, value),
                    cost,
                    received_at: now,
                    keys,
                },
                now,
            );
        }
    }
}

proof fn lemma_batch_updates_fresh(b: BatchWorld, updates: Seq<UpdateModel>, now: u64, n: int)
    requires
        bundles_fresh(b.w.s, now),
        0 <= n <= updates.len(),
    ensures
        bundles_fresh(b.on_updates(updates, now, n).w.s, now),
    decreases n,
{
    if n > 0 {
        lemma_batch_updates_fresh(b, updates, now, n - 1);
        lemma_batch_update_fresh(b.on_updates(updates, now, n - 1), updates[n - 1], now);
    }
}

proof fn lemma_dropped_fresh(w: World, now: u64)
    ensures
        bundles_fresh(w.drop_expired_bundles(now).s, now),
{
    let after = w.drop_expired_bundles(now);
    crate::frames::lemma_drop_expired_steady(w, now);
    assert forall|bundle: BundleModel| #[trigger] after.s.bundles.contains(bundle) implies now
        <= bundle.received_at + after.s.runtime.bundle_expiry by {
        crate::scheduler_laws::lemma_only_expired_dropped(w, now, bundle);
    }
}

/// Once a round has taken in what arrived, no bundle waits that is too old, so
/// that none is started. The batch scheduler.
pub proof fn lemma_batch_no_old_bundle(b: BatchWorld, input: PollModel)
    ensures
        bundles_fresh(b.take_in(input).0.w.s, input.now),
{
    let answered = b.check_slot_roll(input.progress, input.now).on_responses(
        input.responses,
        input.responses.len() as int,
    );
    let drained = answered.drain_tpu(
        input.tpu,
        crate::worker::round_limit(answered.is_leader()),
    );
    lemma_dropped_fresh(drained.w, input.now);
    let fresh = BatchWorld { w: drained.w.drop_expired_bundles(input.now), ..drained };
    lemma_batch_updates_fresh(fresh, input.updates, input.now, input.updates.len() as int);
}

proof fn lemma_auction_update_fresh(
    a: AuctionWorld,
    update: UpdateModel,
    scores: Seq<u64>,
    now: u64,
)
    requires
        bundles_fresh(a.w.s, now),
    ensures
        bundles_fresh(a.on_update(update, scores, now).w.s, now),
        a.on_update(update, scores, now).w.s.runtime == a.w.s.runtime,
{
    reveal(AuctionWorld::on_update);
    if let UpdateModel::Bundle(packets) = update {
        let values = crate::auction_model::bid_values(a.w.b.runtime, packets, scores, a.min_score);
        let (w, taken) = a.w.scan_bundle(packets, values);
        assert(w.s == a.w.s);
        if let Some((keys, cost, value)) = taken {
            lemma_stored_fresh(
                w,
                BundleModel {
                    priority: crate::auction_model::capped_score(value),
                    cost,
                    received_at: now,
                    keys,
                },
                now,
            );
        }
    }
}

proof fn lemma_auction_updates_fresh(
    a: AuctionWorld,
    updates: Seq<UpdateModel>,
    scores: Seq<Seq<u64>>,
    now: u64,
    n: int,
)
    requires
        bundles_fresh(a.w.s, now),
        0 <= n <= updates.len(),
    ensures
        bundles_fresh(a.on_updates(updates, scores, now, n).w.s, now),
    decreases n,
{
    if n > 0 {
        lemma_auction_updates_fresh(a, updates, scores, now, n - 1);
        lemma_auction_update_fresh(
            a.on_updates(updates, scores, now, n - 1),
            updates[n - 1],
            scores[n - 1],
            now,
        );
    }
}

/// Once a round has taken in what arrived, no bundle waits that is too old, so
/// that none is started. The auction scheduler.
pub proof fn lemma_auction_no_old_bundle(
    a: AuctionWorld,
    input: PollModel,
    scores: Seq<u64>,
    update_scores: Seq<Seq<u64>>,
)
    ensures
        bundles_fresh(a.take_in(input, scores, update_scores).0.w.s, input.now),
{
    let answered = a.begin_round(input.progress, input.now, input.responses);
    let drained = answered.drain_tpu(
        input.tpu,
        scores,
        crate::worker::round_limit(answered.is_leader()),
    );
    lemma_dropped_fresh(drained.w, input.now);
    let fresh = AuctionWorld { w: drained.w.drop_expired_bundles(input.now), ..drained };
    lemma_auction_updates_fresh(
        fresh,
        input.updates,
        update_scores,
        input.now,
        input.updates.len() as int,
    );
}

proof fn lemma_batch_tpu_adds(b: BatchWorld, tpu: Seq<(Seq<u8>, bool)>, n: int)
    requires
        0 <= n <= tpu.len(),
    ensures
        b.w.s.unchecked.subset_of(b.on_tpu_upto(tpu, n).w.s.unchecked),
        b.on_tpu_upto(tpu, n).w.s.checked == b.w.s.checked,
    decreases n,
{
    if n > 0 {
        lemma_batch_tpu_adds(b, tpu, n - 1);
        reveal(BatchWorld::on_tpu);
    }
}

/// As long as there is room for all that a round takes in, nothing that waits to
/// be checked has to go. The batch scheduler.
pub proof fn lemma_batch_room_keeps_all(b: BatchWorld, tpu: Seq<(Seq<u8>, bool)>, limit: int)
    requires
        0 <= limit,
        b.w.s.unchecked.len() + tpu.len() <= b.w.s.unchecked_capacity || b.w.s.unchecked.len() + limit
            <= b.w.s.unchecked_capacity,
    ensures
        b.w.s.unchecked.subset_of(b.drain_tpu(tpu, limit).w.s.unchecked),
        b.drain_tpu(tpu, limit).w.s.checked == b.w.s.checked,
{
    let additional = if tpu.len() < limit {
        tpu.len() as int
    } else {
        limit
    };
    let roomy = BatchWorld { w: b.w.make_room(additional as nat), ..b };
    assert(roomy.w.s.unchecked == b.w.s.unchecked);
    lemma_batch_tpu_adds(roomy, tpu, additional);
}

proof fn lemma_auction_tpu_adds(a: AuctionWorld, tpu: Seq<(Seq<u8>, bool)>, scores: Seq<u64>, n: int)
    requires
        0 <= n <= tpu.len(),
    ensures
        a.w.s.unchecked.subset_of(a.on_tpu_upto(tpu, scores, n).w.s.unchecked),
    decreases n,
{
    if n > 0 {
        lemma_auction_tpu_adds(a, tpu, scores, n - 1);
        reveal(AuctionWorld::on_tpu);
    }
}

/// As long as there is room for all that a round takes in, nothing that waits to
/// be checked has to go. The auction scheduler.
pub proof fn lemma_auction_room_keeps_all(
    a: AuctionWorld,
    tpu: Seq<(Seq<u8>, bool)>,
    scores: Seq<u64>,
    limit: int,
)
    requires
        0 <= limit,
        a.w.s.unchecked.len() + tpu.len() <= a.w.s.unchecked_capacity || a.w.s.unchecked.len() + limit
            <= a.w.s.unchecked_capacity,
    ensures
        a.w.s.unchecked.subset_of(a.drain_tpu(tpu, scores, limit).w.s.unchecked),
{
    let additional = if tpu.len() < limit {
        tpu.len() as int
    } else {
        limit
    };
    let roomy = AuctionWorld { w: a.w.make_room(additional as nat), ..a };
    assert(roomy.w.s.unchecked == a.w.s.unchecked);
    lemma_auction_tpu_adds(roomy, tpu, scores, additional);
}

} // verus!
