//! What holds of the batch scheduler.

use vstd::prelude::*;

use crate::batch_model::BatchWorld;
use crate::batch_scheduler::{lemma_roll_slot, lemma_slot_roll_steady};
use crate::bridge::{ActionModel, BatchModel, EXECUTE_BUNDLE_FLAGS, EXECUTE_WORKER_START};
use crate::frames::{
    lemma_drain_tpu_steady, lemma_drop_expired_steady, lemma_mark_executing_steady,
    lemma_responses_steady, lemma_roll_starts_nothing, lemma_schedule_checks_steady,
    lemma_starts_nothing_chain, lemma_updates_steady, starts_nothing, steady_core,
};
use crate::idle::{
    answered_or_evicted, idle, idle_round, lemma_answered_stays, lemma_drain_tpu_idle, lemma_drop_expired_idle, lemma_responses_settle,
    lemma_roll_idle, lemma_schedule_checks_idle, lemma_updates_idle,
};
use crate::locks::{exclusive_table, lemma_checked_locks_stay_exclusive};
use crate::ordered::{
    increasing, lemma_increasing_subrange, lemma_with_item, lemma_without_item, Ordered,
};
use crate::pubkey::Pubkey;
use crate::queues::{
    bundle_message, lemma_bundle_message_cost, lemma_message_cost_monotone, message_cost,
};
use crate::scheduler_laws::lemma_start_adds_cost;
use crate::shared::{BundleId, BundleModel, PriorityId, BUNDLE_MARKER};
use crate::worker::{
    budget_of, fill_percentage, floored, round_limit, CheckResponse, PollModel, MAX_BLOCK_UNITS,
};

verus! {

/// As long as the validator does not lead, a round sends nothing to be executed,
/// and nothing starts to execute. A transaction that waits to be executed still
/// does after the round, unless a worker's answer was about it, or it was the one
/// of lowest priority when an answer came and there was no room for more.
pub proof fn lemma_only_leaders_execute(b: BatchWorld, input: PollModel)
    requires
        b.follows(input),
        increasing::<PriorityId>(b.w.s.checked),
        b.w.s.executing.dom().finite(),
    ensures
        idle_round(b, b.poll(input), input),
{
    let now = input.now;
    let noted = b.w.note_progress(input.progress, now);
    lemma_slot_roll_steady(b, input.progress, now);
    lemma_roll_starts_nothing(noted);
    let rolled = b.check_slot_roll(input.progress, now);
    assert(starts_nothing(b.w.b.actions, rolled.w.b.actions));
    let n = input.responses.len() as int;
    lemma_responses_steady(rolled, input.responses, n);
    let answered = rolled.on_responses(input.responses, n);
    assert(!answered.is_leader());
    lemma_roll_idle(noted);
    lemma_responses_settle(rolled, input.responses, n);
    lemma_drain_tpu_idle(answered, input.tpu, round_limit(false));
    lemma_drain_tpu_steady(answered, input.tpu, round_limit(false));
    let drained = answered.drain_tpu(input.tpu, round_limit(false));
    lemma_drop_expired_steady(drained.w, now);
    lemma_drop_expired_idle(drained.w, now);
    let fresh = BatchWorld { w: drained.w.drop_expired_bundles(now), ..drained };
    let m = input.updates.len() as int;
    lemma_updates_steady(fresh, input.updates, now, m);
    lemma_updates_idle(fresh, input.updates, now, m);
    let taken = fresh.on_updates(input.updates, now, m);
    lemma_schedule_checks_steady(taken.w);
    lemma_schedule_checks_idle(taken.w);
    assert(b.poll(input).w == taken.w.schedule_checks());
    assert(idle(answered.w, b.poll(input).w));
    assert forall|id: PriorityId| #[trigger] b.w.s.checked.contains(id) implies b.poll(
        input,
    ).w.s.checked.contains(id) || answered_or_evicted(rolled, input.responses, n, id) by {
        assert(rolled.w.s.checked.contains(id));
    }
    let start = b.w.b.actions;
    lemma_starts_nothing_chain(start, rolled.w.b.actions, answered.w.b.actions);
    lemma_starts_nothing_chain(start, answered.w.b.actions, drained.w.b.actions);
    lemma_starts_nothing_chain(start, drained.w.b.actions, fresh.w.b.actions);
    lemma_starts_nothing_chain(start, fresh.w.b.actions, taken.w.b.actions);
    lemma_starts_nothing_chain(start, taken.w.b.actions, taken.w.schedule_checks().b.actions);
}

/// As long as the validator does not lead, the same holds of a round that is
/// broken off after some answers.
pub proof fn lemma_broken_round_idle(b: BatchWorld, input: PollModel, k: int)
    requires
        b.follows(input),
        increasing::<PriorityId>(b.w.s.checked),
        b.w.s.executing.dom().finite(),
        0 <= k <= input.responses.len(),
    ensures
        idle_round(
            b,
            b.check_slot_roll(input.progress, input.now).on_responses(input.responses, k),
            input,
        ),
{
    let now = input.now;
    let noted = b.w.note_progress(input.progress, now);
    let n = input.responses.len() as int;
    lemma_slot_roll_steady(b, input.progress, now);
    lemma_roll_starts_nothing(noted);
    lemma_roll_idle(noted);
    let rolled = b.check_slot_roll(input.progress, now);
    assert(starts_nothing(b.w.b.actions, rolled.w.b.actions));
    lemma_responses_steady(rolled, input.responses, k);
    lemma_responses_settle(rolled, input.responses, k);
    let after = rolled.on_responses(input.responses, k);
    lemma_starts_nothing_chain(b.w.b.actions, rolled.w.b.actions, after.w.b.actions);
    assert forall|id: PriorityId| #[trigger] b.w.s.checked.contains(id) implies after.w.s.checked.contains(
        id,
    ) || answered_or_evicted(rolled, input.responses, n, id) by {
        assert(rolled.w.s.checked.contains(id));
        if answered_or_evicted(rolled, input.responses, k, id) {
            lemma_answered_stays(rolled, input.responses, k, n, id);
        }
    }
}

proof fn lemma_lock_upto_keeps_queues(b: BatchWorld, keys: Seq<u64>, n: int)
    ensures
        b.lock_upto(keys, n).w == b.w,
    decreases n,
{
    if n > 0 {
        lemma_lock_upto_keeps_queues(b, keys, n - 1);
    }
}

/// Nothing that waits has a higher priority than what is started: a transaction
/// goes before bundles of the same priority, a bundle only before transactions
/// of lower priority.
pub proof fn lemma_best_goes_first(b: BatchWorld, budget: u64, worker: usize)
    requires
        increasing::<PriorityId>(b.w.s.checked),
        increasing::<BundleId>(b.w.s.bundles),
        b.try_best(budget, worker).2.len() > 0,
    ensures
        ({
            let (next, _, batch) = b.try_best(budget, worker);
            let checked = b.w.s.checked;
            let bundles = b.w.s.bundles;
            ||| {
                &&& checked.len() > 0 && batch.len() == 1 && batch[0].meta == checked.last()
                &&& next.w.s.checked == checked.drop_last() && next.w.s.bundles == bundles
                &&& forall|id: PriorityId| #[trigger]
                    checked.contains(id) ==> id.priority <= checked.last().priority
                &&& forall|bundle: BundleModel| #[trigger]
                    bundles.contains(bundle) ==> bundle.priority <= checked.last().priority
            }
            ||| {
                &&& bundles.len() > 0 && batch == bundle_message(
                    bundles.last().keys,
                    bundles.last().cost,
                )
                &&& next.w.s.bundles == bundles.drop_last() && next.w.s.checked == checked
                &&& forall|id: PriorityId| #[trigger]
                    checked.contains(id) ==> id.priority < bundles.last().priority
                &&& forall|bundle: BundleModel| #[trigger]
                    bundles.contains(bundle) ==> bundle.priority <= bundles.last().priority
            }
        }),
{
    let checked = b.w.s.checked;
    let bundles = b.w.s.bundles;
    assert forall|id: PriorityId| #[trigger] checked.contains(id) implies id.priority
        <= checked.last().priority by {
        let i = checked.index_of(id);
        assert(checked[i] == id);
        if i < checked.len() - 1 {
            assert(PriorityId::before(checked[i], checked[checked.len() - 1]));
        }
    }
    assert forall|bundle: BundleModel| #[trigger] bundles.contains(bundle) implies bundle.priority
        <= bundles.last().priority by {
        let i = bundles.index_of(bundle);
        assert(bundles[i] == bundle);
        if i < bundles.len() - 1 {
            assert(BundleId::before(bundles[i], bundles[bundles.len() - 1]));
        }
    }
    if bundles.len() > 0 {
        lemma_lock_upto_keeps_queues(b, bundles.last().keys, bundles.last().keys.len() as int);
    }
}

/// What is started conflicts with nothing that executes.
pub proof fn lemma_started_without_conflict(b: BatchWorld, budget: u64, worker: usize, i: int)
    requires
        0 <= i < b.try_best(budget, worker).2.len(),
    ensures
        b.can_lock(b.try_best(budget, worker).2[i].key),
{
    let bundles = b.w.s.bundles;
    if bundles.len() > 0 && b.try_best(budget, worker) == b.try_bundle(budget, worker) {
        let keys = bundles.last().keys;
        if i < keys.len() {
            assert(bundle_message(keys, bundles.last().cost)[i].key == keys[i]);
        }
    }
}

/// Starting a transaction leaves every writer alone on its accounts.
pub proof fn lemma_started_writes_alone(b: BatchWorld, budget: u64, worker: usize)
    requires
        b.w.s.checked.len() > 0,
        exclusive_table(b.locks),
    ensures
        exclusive_table(b.try_transaction(budget, worker).0.locks),
{
    let tx = b.w.s.checked.last();
    if tx.cost <= budget && b.can_lock(tx.key) {
        lemma_checked_locks_stay_exclusive(b.locks, tx.key, b.w.b.locks(tx.key));
    }
}

/// A bundle is sent whole: one message, with all of its transactions in order,
/// to be executed all or not at all, its cost counted once.
pub proof fn lemma_bundle_sent_whole(b: BatchWorld, budget: u64, worker: usize)
    requires
        b.w.s.bundles.len() > 0,
        b.w.s.bundles.last().keys.len() > 0,
        b.try_bundle(budget, worker).2.len() > 0,
    ensures
        ({
            let bundle = b.w.s.bundles.last();
            let (next, left, batch) = b.try_bundle(budget, worker);
            &&& batch.len() == bundle.keys.len()
            &&& forall|i: int| 0 <= i < batch.len() ==> (#[trigger] batch[i]).key == bundle.keys[i]
                && batch[i].meta.priority == BUNDLE_MARKER
            &&& message_cost(batch, batch.len() as int) == bundle.cost
            &&& left == budget - bundle.cost
            &&& next.w.b.actions == b.w.b.actions.push(
                ActionModel::Schedule {
                    batch: BatchModel {
                        worker,
                        transactions: batch,
                        max_working_slot: (b.w.b.progress.current_slot + 1) as u64,
                        flags: EXECUTE_BUNDLE_FLAGS,
                    },
                },
            )
        }),
{
    let bundle = b.w.s.bundles.last();
    lemma_lock_upto_keeps_queues(b, bundle.keys, bundle.keys.len() as int);
    lemma_bundle_message_cost(bundle.keys, bundle.cost, bundle.keys.len() as int);
}

/// A bundle that cannot be started as a whole leaves everything as it was.
pub proof fn lemma_bundle_or_nothing(b: BatchWorld, budget: u64, worker: usize)
    requires
        b.w.s.bundles.len() > 0,
        b.w.s.bundles.last().keys.len() > 0,
        b.try_bundle(budget, worker).2.len() == 0,
    ensures
        b.try_bundle(budget, worker).0 == b,
        b.try_bundle(budget, worker).1 == budget,
{
}

/// What is started fits the budget.
proof fn lemma_best_fits(b: BatchWorld, budget: u64, worker: usize)
    ensures
        ({
            let (next, left, batch) = b.try_best(budget, worker);
            &&& left + message_cost(batch, batch.len() as int) <= budget
            &&& 0 <= message_cost(batch, batch.len() as int)
            &&& next.w.s.in_flight_cus == b.w.s.in_flight_cus
            &&& steady_core(b.w.s, next.w.s)
            &&& next.w.b.progress == b.w.b.progress
        }),
{
    let (next, left, batch) = b.try_best(budget, worker);
    lemma_message_cost_monotone(batch, 0, batch.len() as int);
    let bundles = b.w.s.bundles;
    if bundles.len() > 0 {
        let bundle = bundles.last();
        lemma_lock_upto_keeps_queues(b, bundle.keys, bundle.keys.len() as int);
        if bundle.keys.len() > 0 {
            lemma_bundle_message_cost(bundle.keys, bundle.cost, bundle.keys.len() as int);
        }
    }
    if b.w.s.checked.len() > 0 {
        let tx = b.w.s.checked.last();
        let single = seq![crate::bridge::KeyedTransactionMeta { key: tx.key, meta: tx }];
        assert(message_cost(single, 0) == 0);
        assert(message_cost(single, 1) == tx.cost);
    }
}

/// Giving work to workers keeps configuration, slot and progress.
pub proof fn lemma_execute_steady(b: BatchWorld, budget: u64, worker: int, n: int)
    ensures
        steady_core(b.w.s, b.execute_from(budget, worker, n).w.s),
        b.execute_from(budget, worker, n).w.b.progress == b.w.b.progress,
    decreases n - worker,
{
    if worker < n && budget > 0 {
        if b.w.b.workers[worker].len != 0 {
            lemma_execute_steady(b, budget, worker + 1, n);
        } else {
            let (next, left, batch) = b.try_best(budget, worker as usize);
            lemma_best_fits(b, budget, worker as usize);
            if batch.len() > 0 {
                lemma_mark_executing_steady(next.w, batch, batch.len() as int);
                let started = BatchWorld { w: next.w.start_batch(batch), ..next };
                lemma_execute_steady(started, left, worker + 1, n);
            }
        }
    }
}

/// Giving work to workers adds no more to what is in flight than the budget.
pub proof fn lemma_execute_within_budget(b: BatchWorld, budget: u64, worker: int, n: int)
    requires
        b.w.s.in_flight_cus + budget <= u64::MAX,
    ensures
        b.w.s.in_flight_cus <= b.execute_from(budget, worker, n).w.s.in_flight_cus,
        b.execute_from(budget, worker, n).w.s.in_flight_cus <= b.w.s.in_flight_cus + budget,
    decreases n - worker,
{
    if worker < n && budget > 0 {
        if b.w.b.workers[worker].len != 0 {
            lemma_execute_within_budget(b, budget, worker + 1, n);
        } else {
            let (next, left, batch) = b.try_best(budget, worker as usize);
            lemma_best_fits(b, budget, worker as usize);
            if batch.len() > 0 {
                let m = batch.len() as int;
                lemma_start_adds_cost(next.w, batch, m);
                let started = BatchWorld { w: next.w.start_batch(batch), ..next };
                lemma_execute_within_budget(started, left, worker + 1, n);
            }
        }
    }
}

/// Together with what the block holds, what is in flight stays within the part
/// of the block that may be filled by now, unless it was beyond that before.
pub proof fn lemma_block_not_overfilled(b: BatchWorld)
    requires
        b.w.s.in_flight_cus <= MAX_BLOCK_UNITS,
    ensures
        ({
            let progress = b.w.b.progress;
            let used = floored(MAX_BLOCK_UNITS as int, progress.remaining_cost_units as int);
            let limit = MAX_BLOCK_UNITS * fill_percentage(
                progress,
                b.w.s.runtime.block_fill_cutoff,
            ) / 100;
            let after = b.schedule_execute().w.s.in_flight_cus;
            after == b.w.s.in_flight_cus || used + after <= limit
        }),
        b.schedule_execute().w.s.in_flight_cus <= MAX_BLOCK_UNITS,
{
    let progress = b.w.b.progress;
    let cutoff = b.w.s.runtime.block_fill_cutoff;
    let budget = budget_of(progress, cutoff, b.w.s.in_flight_cus);
    crate::worker::lemma_budget_bound(progress, cutoff, b.w.s.in_flight_cus);
    lemma_execute_within_budget(
        b,
        budget as u64,
        EXECUTE_WORKER_START as int,
        b.w.b.workers.len() as int,
    );
}

/// In a slot in which the validator was seen to become leader, it is not seen
/// to become leader again: the transactions that make it the receiver of tips
/// are sent once.
pub proof fn lemma_leader_ready_once_per_slot(b: BatchWorld, first: PollModel, second: PollModel)
    requires
        b.w.note_progress(first.progress, first.now).becomes_leader(),
        second.progress matches Some(progress) ==> progress.current_slot == b.w.note_progress(
            first.progress,
            first.now,
        ).b.progress.current_slot,
    ensures
        b.poll(first).w.s.stats.was_leader_ready,
        b.poll(first).check_slot_roll(second.progress, second.now).w == b.poll(
            first,
        ).w.note_progress(second.progress, second.now),
{
    let now = first.now;
    let noted = b.w.note_progress(first.progress, now);
    lemma_slot_roll_steady(b, first.progress, now);
    lemma_roll_slot(noted);
    let rolled = b.check_slot_roll(first.progress, now);
    assert(rolled.w.s.stats.was_leader_ready);
    let n = first.responses.len() as int;
    lemma_responses_steady(rolled, first.responses, n);
    let answered = rolled.on_responses(first.responses, n);
    let limit: int = round_limit(answered.is_leader());
    lemma_drain_tpu_steady(answered, first.tpu, limit);
    let drained = answered.drain_tpu(first.tpu, limit);
    lemma_drop_expired_steady(drained.w, now);
    let fresh = BatchWorld { w: drained.w.drop_expired_bundles(now), ..drained };
    let m = first.updates.len() as int;
    lemma_updates_steady(fresh, first.updates, now, m);
    let taken = fresh.on_updates(first.updates, now, m);
    lemma_schedule_checks_steady(taken.w);
    let checks = BatchWorld { w: taken.w.schedule_checks(), ..taken };
    lemma_execute_steady(
        checks,
        budget_of(
            checks.w.b.progress,
            checks.w.s.runtime.block_fill_cutoff,
            checks.w.s.in_flight_cus,
        ) as u64,
        EXECUTE_WORKER_START as int,
        checks.w.b.workers.len() as int,
    );
    let after = b.poll(first).w;
    assert(after.s.slot == noted.b.progress.current_slot);
    crate::scheduler_laws::lemma_leader_seen_once(after, second.progress, second.now);
}

/// As long as something can make room, a check that passes lets no more
/// transactions wait, execute or be deferred than there is capacity for.
pub proof fn lemma_check_keeps_capacity(
    b: BatchWorld,
    meta: PriorityId,
    rep: CheckResponse,
    resolved_keys: Option<Seq<Pubkey>>,
)
    requires
        increasing::<PriorityId>(b.w.s.checked),
        b.w.s.pending() <= b.w.s.checked_capacity,
        b.w.s.pending() < b.w.s.checked_capacity || b.w.s.checked.len() > 0,
    ensures
        b.on_check(meta, rep, resolved_keys).0.w.s.pending() <= b.w.s.checked_capacity,
{
    let checked = b.w.s.checked;
    lemma_with_item::<PriorityId>(checked, meta);
    lemma_without_item::<PriorityId>(checked, meta);
    if checked.len() > 0 {
        lemma_increasing_subrange::<PriorityId>(checked, 1, checked.len() as int);
        lemma_with_item::<PriorityId>(checked.drop_first(), meta);
    }
}

} // verus!
