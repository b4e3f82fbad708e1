//! How the budget of a block and the idle workers are used.

use vstd::prelude::*;

use crate::auction_frames::lemma_remove_checked_steady;
use crate::auction_lock_laws::{exact_holders, lemma_best_exact, lemma_stable_exact};
use crate::auction_model::{pick_upto, AuctionWorld, SEARCH_LIMIT};
use crate::auction_scheduler::lemma_pick_cost;
use crate::batch_model::BatchWorld;
use crate::bridge::{BatchModel, BridgeModel, KeyedTransactionMeta, ProgressMessage};
use crate::check_laws::{lemma_checks_asked_for, nothing_to_check};
use crate::choice_laws::{
    bundle_startable, lemma_batch_best_or_nothing, lemma_best_bid_first, top_bundle_startable,
    top_startable, transaction_startable,
};
use crate::frames::{lemma_mark_executing_steady, lemma_schedule_checks_steady};
use crate::lifecycle::{lemma_schedule_checks, orderly};
use crate::lifecycle_laws::{lemma_auction_best, lemma_freed_started};
use crate::ordered::{increasing, lemma_increasing_subrange};
use crate::queues::{lemma_bundle_message_cost, message_cost};
use crate::scheduler_laws::lemma_start_adds_cost;
use crate::scheduler_model::{CoreModel, World};
use crate::shared::{BundleModel, PriorityId};
use crate::still::lemma_schedule_checks_still;
use crate::worker::{budget_of, round_limit, PollModel};

verus! {

/// The budget of a block is what is left of the part that may be filled by now,
/// once what the block holds and what is in flight are taken off: of sixty
/// million units, as many hundredths as the slot is through, and the cutoff
/// ahead of that.
pub proof fn lemma_budget_is_what_is_left(
    progress: ProgressMessage,
    cutoff: u8,
    in_flight: u64,
    limit: int,
    used: int,
)
    requires
        progress.current_slot_progress + cutoff <= 100 ==> limit == 600_000 * (
        progress.current_slot_progress + cutoff),
        progress.current_slot_progress + cutoff > 100 ==> limit == 60_000_000,
        progress.remaining_cost_units <= 60_000_000 ==> used == 60_000_000
            - progress.remaining_cost_units,
        progress.remaining_cost_units > 60_000_000 ==> used == 0,
    ensures
        used + in_flight < limit ==> budget_of(progress, cutoff, in_flight) + used + in_flight
            == limit,
        used + in_flight >= limit ==> budget_of(progress, cutoff, in_flight) == 0,
{
}

/// What is in flight is taken off the budget, unit for unit.
pub proof fn lemma_in_flight_lowers_budget(
    progress: ProgressMessage,
    cutoff: u8,
    in_flight: u64,
    more: u64,
)
    requires
        budget_of(progress, cutoff, in_flight) >= more,
        in_flight + more <= u64::MAX,
    ensures
        budget_of(progress, cutoff, (in_flight + more) as u64) == budget_of(
            progress,
            cutoff,
            in_flight,
        ) - more,
{
}

/// While the validator leads, a round takes in few transactions.
pub proof fn lemma_round_limits()
    ensures
        round_limit(true) == 128,
        round_limit(false) == 1024,
{
}

/// Whether every waiting bundle holds something.
pub open spec fn bundles_hold_something(bundles: Seq<BundleModel>) -> bool {
    forall|i: int| 0 <= i < bundles.len() ==> (#[trigger] bundles[i]).keys.len() > 0
}

/// A message was added for a worker, and for no other.
pub open spec fn one_message(before: BridgeModel, after: BridgeModel, worker: int) -> bool {
    &&& after.workers.len() == before.workers.len()
    &&& forall|i: int|
        0 <= i < before.workers.len() && i != worker ==> #[trigger] after.workers[i]
            == before.workers[i]
    &&& 0 <= worker < before.workers.len() && before.workers[worker].len < usize::MAX
        ==> after.workers[worker].len == before.workers[worker].len + 1
}

/// A message to a worker fills its queue by one, and touches no other queue.
pub proof fn lemma_message_fills_one_queue(b: BridgeModel, message: BatchModel)
    ensures
        one_message(b, b.scheduled(message), message.worker as int),
{
}

/// Whether the best that waits cannot be started by the batch scheduler.
pub open spec fn batch_stuck(b: BatchWorld, budget: u64) -> bool {
    let bundle_first = b.w.s.bundles.len() > 0 && forall|id: PriorityId| #[trigger]
        b.w.s.checked.contains(id) ==> id.priority < b.w.s.bundles.last().priority;
    if bundle_first {
        !top_bundle_startable(b, budget)
    } else {
        !top_startable(b, budget)
    }
}

#[verifier::rlimit(50)]
proof fn lemma_batch_step(b: BatchWorld, budget: u64, worker: usize)
    requires
        increasing::<PriorityId>(b.w.s.checked),
        bundles_hold_something(b.w.s.bundles),
    ensures
        ({
            let (next, left, batch) = b.try_best(budget, worker);
            &&& batch.len() == 0 ==> next == b && left == budget && batch_stuck(b, budget)
            &&& batch.len() > 0 ==> {
                &&& increasing::<PriorityId>(next.w.s.checked)
                &&& bundles_hold_something(next.w.s.bundles)
                &&& next.w.s.in_flight_cus == b.w.s.in_flight_cus
                &&& message_cost(batch, batch.len() as int) == budget - left
                &&& one_message(b.w.b, next.w.b, worker as int)
            }
        }),
{
    lemma_batch_best_or_nothing(b, budget, worker);
    let (next, left, batch) = b.try_best(budget, worker);
    let checked = b.w.s.checked;
    let bundles = b.w.s.bundles;
    if batch.len() > 0 {
        if bundles.len() > 0 {
            let last = bundles.len() - 1;
            assert(bundles[last].keys.len() > 0);
            lemma_locked_world(b, bundles.last().keys, bundles.last().keys.len() as int);
            lemma_bundle_message_cost(
                bundles.last().keys,
                bundles.last().cost,
                bundles.last().keys.len() as int,
            );
        }
        if checked.len() > 0 {
            lemma_increasing_subrange::<PriorityId>(checked, 0, checked.len() - 1);
            let tx = checked.last();
            let single = seq![KeyedTransactionMeta { key: tx.key, meta: tx }];
            assert(message_cost(single, 0) == 0);
            assert(message_cost(single, 1) == tx.cost);
        }
        assert forall|i: int| 0 <= i < next.w.s.bundles.len() implies (
        #[trigger] next.w.s.bundles[i]).keys.len() > 0 by {
            assert(next.w.s.bundles[i] == bundles[i]);
        }
    } else {
        if bundles.len() > 0 {
            let last = bundles.len() - 1;
            assert(bundles[last].keys.len() > 0);
        }
    }
}

proof fn lemma_locked_world(b: BatchWorld, keys: Seq<u64>, n: int)
    ensures
        b.lock_upto(keys, n).w == b.w,
    decreases n,
{
    if n > 0 {
        lemma_locked_world(b, keys, n - 1);
    }
}

proof fn lemma_batch_queues_grow(b: BatchWorld, budget: u64, worker: int, n: int, i: int)
    requires
        increasing::<PriorityId>(b.w.s.checked),
        bundles_hold_something(b.w.s.bundles),
        0 <= worker,
        n <= b.w.b.workers.len() <= usize::MAX,
        0 <= i < b.w.b.workers.len(),
    ensures
        b.execute_from(budget, worker, n).w.b.workers.len() == b.w.b.workers.len(),
        b.execute_from(budget, worker, n).w.b.workers[i].len >= b.w.b.workers[i].len,
    decreases n - worker,
{
    if worker < n && budget > 0 {
        if b.w.b.workers[worker].len != 0 {
            lemma_batch_queues_grow(b, budget, worker + 1, n, i);
        } else {
            let (next, left, batch) = b.try_best(budget, worker as usize);
            lemma_batch_step(b, budget, worker as usize);
            if batch.len() > 0 {
                lemma_mark_executing_steady(next.w, batch, batch.len() as int);
                let started = BatchWorld { w: next.w.start_batch(batch), ..next };
                lemma_batch_queues_grow(started, left, worker + 1, n, i);
            }
        }
    }
}

/// No idle worker is passed over: after work was given out, each of the workers
/// has some, or the budget is used up, or the best that is left cannot be
/// started. The batch scheduler.
#[verifier::rlimit(50)]
pub proof fn lemma_batch_workers_served(b: BatchWorld, budget: u64, worker: int, n: int)
    requires
        increasing::<PriorityId>(b.w.s.checked),
        bundles_hold_something(b.w.s.bundles),
        0 <= worker,
        n <= b.w.b.workers.len() <= usize::MAX,
        b.w.s.in_flight_cus + budget <= u64::MAX,
    ensures
        ({
            let after = b.execute_from(budget, worker, n);
            let left = budget - (after.w.s.in_flight_cus - b.w.s.in_flight_cus);
            &&& 0 <= left <= budget
            &&& {
                ||| forall|i: int| worker <= i < n ==> (#[trigger] after.w.b.workers[i]).len > 0
                ||| left == 0
                ||| batch_stuck(after, left as u64)
            }
        }),
    decreases n - worker,
{
    let after = b.execute_from(budget, worker, n);
    if worker < n && budget > 0 {
        if b.w.b.workers[worker].len != 0 {
            lemma_batch_workers_served(b, budget, worker + 1, n);
            lemma_batch_queues_grow(b, budget, worker, n, worker);
        } else {
            let (next, left, batch) = b.try_best(budget, worker as usize);
            lemma_batch_step(b, budget, worker as usize);
            if batch.len() > 0 {
                lemma_mark_executing_steady(next.w, batch, batch.len() as int);
                crate::queues::lemma_message_cost_monotone(batch, 0, batch.len() as int);
                lemma_start_adds_cost(next.w, batch, batch.len() as int);
                let started = BatchWorld { w: next.w.start_batch(batch), ..next };
                assert(started.w.b.workers[worker].len > 0);
                lemma_batch_workers_served(started, left, worker + 1, n);
                lemma_batch_queues_grow(started, left, worker + 1, n, worker);
                assert forall|i: int| worker <= i < n && (forall|j: int|
                    worker + 1 <= j < n ==> (#[trigger] after.w.b.workers[j]).len > 0) implies (
                #[trigger] after.w.b.workers[i]).len > 0 by {
                }
            }
        }
    }
}

proof fn lemma_dequeued_bridge(w: World, keys: Seq<u64>, n: int)
    ensures
        w.dequeue_upto(keys, n).s == w.s,
        w.dequeue_upto(keys, n).b.workers == w.b.workers,
    decreases n,
{
    if n > 0 {
        lemma_dequeued_bridge(w, keys, n - 1);
    }
}

proof fn lemma_removed_bridge(w: World, txs: Seq<PriorityId>, n: int)
    requires
        increasing::<PriorityId>(w.s.checked),
        0 <= n <= txs.len(),
    ensures
        w.remove_checked_upto(txs, n).b.workers == w.b.workers,
        increasing::<PriorityId>(w.remove_checked_upto(txs, n).s.checked),
    decreases n,
{
    if n > 0 {
        lemma_removed_bridge(w, txs, n - 1);
        let before = w.remove_checked_upto(txs, n - 1);
        if before.s.checked.contains(txs[n - 1]) {
            crate::ordered::lemma_without_item::<PriorityId>(before.s.checked, txs[n - 1]);
        }
    }
}

/// What the auction scheduler started, in either way.
#[verifier::rlimit(50)]
proof fn lemma_auction_sent(a: AuctionWorld, budget: u64, worker: usize)
    requires
        increasing::<PriorityId>(a.w.s.checked),
        bundles_hold_something(a.w.s.bundles),
    ensures
        ({
            let (next, left, batch) = a.try_transactions(budget, worker);
            batch.len() > 0 ==> {
                &&& increasing::<PriorityId>(next.w.s.checked)
                &&& bundles_hold_something(next.w.s.bundles)
                &&& next.w.s.in_flight_cus == a.w.s.in_flight_cus
                &&& message_cost(batch, batch.len() as int) == budget - left
                &&& one_message(a.w.b, next.w.b, worker as int)
            }
        }),
        ({
            let (next, left, batch) = a.try_bundle(budget, worker);
            batch.len() > 0 ==> {
                &&& increasing::<PriorityId>(next.w.s.checked)
                &&& bundles_hold_something(next.w.s.bundles)
                &&& next.w.s.in_flight_cus == a.w.s.in_flight_cus
                &&& message_cost(batch, batch.len() as int) == budget - left
                &&& one_message(a.w.b, next.w.b, worker as int)
            }
        }),
{
    let checked = a.w.s.checked;
    let n = if checked.len() < SEARCH_LIMIT {
        checked.len() as int
    } else {
        SEARCH_LIMIT as int
    };
    let p = pick_upto(a.held, a.w.b, checked, budget, n);
    lemma_pick_cost(a.held, a.w.b, checked, budget, n);
    let message = BatchModel {
        worker,
        transactions: crate::auction_model::picked_message(p.picked),
        max_working_slot: (a.w.b.progress.current_slot + 1) as u64,
        flags: crate::bridge::EXECUTE_FLAGS,
    };
    let sent = World { b: a.w.b.scheduled(message), ..a.w };
    lemma_remove_checked_steady(sent, p.picked, p.picked.len() as int);
    lemma_removed_bridge(sent, p.picked, p.picked.len() as int);
    let bundles = a.w.s.bundles;
    if bundles.len() > 0 {
        let bundle = bundles.last();
        let m = bundle.keys.len() as int;
        assert(bundles[bundles.len() - 1].keys.len() > 0);
        lemma_bundle_message_cost(bundle.keys, bundle.cost, m);
        let whole = World {
            b: a.w.b.scheduled(
                BatchModel {
                    worker,
                    transactions: crate::queues::bundle_message(bundle.keys, bundle.cost),
                    max_working_slot: (a.w.b.progress.current_slot + 1) as u64,
                    flags: crate::bridge::EXECUTE_BUNDLE_FLAGS,
                },
            ),
            ..a.w
        };
        lemma_dequeued_bridge(whole, bundle.keys, m);
        let rest = bundles.drop_last();
        assert forall|i: int| 0 <= i < rest.len() implies (#[trigger] rest[i]).keys.len() > 0 by {
            assert(rest[i] == bundles[i]);
        }
    }
}

/// Whether the auction scheduler can start nothing that waits.
pub open spec fn auction_stuck(a: AuctionWorld, budget: u64) -> bool {
    !transaction_startable(a, budget) && !bundle_startable(a, budget)
}

#[verifier::rlimit(50)]
proof fn lemma_auction_step(a: AuctionWorld, budget: u64, worker: usize)
    requires
        orderly(a.w),
        exact_holders(a),
        increasing::<PriorityId>(a.w.s.checked),
        bundles_hold_something(a.w.s.bundles),
    ensures
        ({
            let (next, left, batch) = a.try_best(budget, worker);
            let started = AuctionWorld { w: next.w.start_batch(batch), ..next };
            &&& batch.len() == 0 ==> next == a && left == budget && auction_stuck(a, budget)
            &&& batch.len() > 0 ==> {
                &&& orderly(started.w)
                &&& exact_holders(started)
                &&& increasing::<PriorityId>(next.w.s.checked)
                &&& bundles_hold_something(next.w.s.bundles)
                &&& next.w.s.in_flight_cus == a.w.s.in_flight_cus
                &&& message_cost(batch, batch.len() as int) == budget - left
                &&& one_message(a.w.b, next.w.b, worker as int)
            }
        }),
{
    if a.w.s.bundles.len() > 0 {
        assert(a.w.s.bundles[a.w.s.bundles.len() - 1].keys.len() > 0);
    }
    lemma_best_bid_first(a, budget, worker);
    let (next, left, batch) = a.try_best(budget, worker);
    if batch.len() > 0 {
        lemma_auction_best(a, budget, worker);
        lemma_best_exact(a, budget, worker);
        lemma_freed_started(a.w, next.w, batch);
        lemma_auction_sent(a, budget, worker);
        crate::choice_laws::lemma_second_try(a, budget, worker);
    }
}

proof fn lemma_auction_queues_grow(a: AuctionWorld, budget: u64, worker: int, n: int, i: int)
    requires
        orderly(a.w),
        exact_holders(a),
        increasing::<PriorityId>(a.w.s.checked),
        bundles_hold_something(a.w.s.bundles),
        0 <= worker,
        n <= a.w.b.workers.len() <= usize::MAX,
        0 <= i < a.w.b.workers.len(),
    ensures
        a.execute_from(budget, worker, n).w.b.workers.len() == a.w.b.workers.len(),
        a.execute_from(budget, worker, n).w.b.workers[i].len >= a.w.b.workers[i].len,
    decreases n - worker,
{
    if worker < n && budget > 0 {
        if a.w.b.workers[worker].len != 0 {
            lemma_auction_queues_grow(a, budget, worker + 1, n, i);
        } else {
            let (next, left, batch) = a.try_best(budget, worker as usize);
            lemma_auction_step(a, budget, worker as usize);
            if batch.len() > 0 {
                lemma_mark_executing_steady(next.w, batch, batch.len() as int);
                let started = AuctionWorld { w: next.w.start_batch(batch), ..next };
                lemma_auction_queues_grow(started, left, worker + 1, n, i);
            }
        }
    }
}

/// No idle worker is passed over: after work was given out, each of the workers
/// has some, or the budget is used up, or nothing that is left can be started.
/// The auction scheduler.
#[verifier::rlimit(50)]
pub proof fn lemma_auction_workers_served(a: AuctionWorld, budget: u64, worker: int, n: int)
    requires
        orderly(a.w),
        exact_holders(a),
        increasing::<PriorityId>(a.w.s.checked),
        bundles_hold_something(a.w.s.bundles),
        0 <= worker,
        n <= a.w.b.workers.len() <= usize::MAX,
        a.w.s.in_flight_cus + budget <= u64::MAX,
    ensures
        ({
            let after = a.execute_from(budget, worker, n);
            let left = budget - (after.w.s.in_flight_cus - a.w.s.in_flight_cus);
            &&& 0 <= left <= budget
            &&& {
                ||| forall|i: int| worker <= i < n ==> (#[trigger] after.w.b.workers[i]).len > 0
                ||| left == 0
                ||| auction_stuck(after, left as u64)
            }
        }),
    decreases n - worker,
{
    let after = a.execute_from(budget, worker, n);
    if worker < n && budget > 0 {
        if a.w.b.workers[worker].len != 0 {
            lemma_auction_workers_served(a, budget, worker + 1, n);
            lemma_auction_queues_grow(a, budget, worker, n, worker);
        } else {
            let (next, left, batch) = a.try_best(budget, worker as usize);
            lemma_auction_step(a, budget, worker as usize);
            if batch.len() > 0 {
                lemma_mark_executing_steady(next.w, batch, batch.len() as int);
                crate::queues::lemma_message_cost_monotone(batch, 0, batch.len() as int);
                lemma_start_adds_cost(next.w, batch, batch.len() as int);
                let started = AuctionWorld { w: next.w.start_batch(batch), ..next };
                assert(started.w.b.workers[worker].len > 0);
                lemma_auction_workers_served(started, left, worker + 1, n);
                lemma_auction_queues_grow(started, left, worker + 1, n, worker);
                assert forall|i: int| worker <= i < n && (forall|j: int|
                    worker + 1 <= j < n ==> (#[trigger] after.w.b.workers[j]).len > 0) implies (
                #[trigger] after.w.b.workers[i]).len > 0 by {
                }
            }
        }
    }
}

/// While the validator leads, each worker that executes is given work out of the
/// budget of the block, as far as it goes. The batch scheduler.
pub proof fn lemma_batch_leader_schedules(b: BatchWorld)
    requires
        increasing::<PriorityId>(b.w.s.checked),
        bundles_hold_something(b.w.s.bundles),
        b.w.b.workers.len() <= usize::MAX,
        b.w.s.in_flight_cus <= 60_000_000,
    ensures
        ({
            let budget = budget_of(
                b.w.b.progress,
                b.w.s.runtime.block_fill_cutoff,
                b.w.s.in_flight_cus,
            );
            let after = b.schedule_execute();
            let left = budget - (after.w.s.in_flight_cus - b.w.s.in_flight_cus);
            ||| forall|i: int|
                1 <= i < b.w.b.workers.len() ==> (#[trigger] after.w.b.workers[i]).len > 0
            ||| left == 0
            ||| batch_stuck(after, left as u64)
        }),
{
    let budget = budget_of(
        b.w.b.progress,
        b.w.s.runtime.block_fill_cutoff,
        b.w.s.in_flight_cus,
    );
    crate::worker::lemma_budget_bound(
        b.w.b.progress,
        b.w.s.runtime.block_fill_cutoff,
        b.w.s.in_flight_cus,
    );
    lemma_batch_workers_served(b, budget as u64, 1, b.w.b.workers.len() as int);
}

/// While the validator leads, each worker that executes is given work out of the
/// budget of the block, as far as it goes. The auction scheduler.
pub proof fn lemma_auction_leader_schedules(a: AuctionWorld)
    requires
        orderly(a.w),
        exact_holders(a),
        increasing::<PriorityId>(a.w.s.checked),
        bundles_hold_something(a.w.s.bundles),
        a.w.b.workers.len() <= usize::MAX,
        a.w.s.in_flight_cus <= 60_000_000,
    ensures
        ({
            let budget = budget_of(
                a.w.b.progress,
                a.w.s.runtime.block_fill_cutoff,
                a.w.s.in_flight_cus,
            );
            let after = a.schedule_execute();
            let left = budget - (after.w.s.in_flight_cus - a.w.s.in_flight_cus);
            ||| forall|i: int|
                1 <= i < a.w.b.workers.len() ==> (#[trigger] after.w.b.workers[i]).len > 0
            ||| left == 0
            ||| auction_stuck(after, left as u64)
        }),
{
    let budget = budget_of(
        a.w.b.progress,
        a.w.s.runtime.block_fill_cutoff,
        a.w.s.in_flight_cus,
    );
    crate::worker::lemma_budget_bound(
        a.w.b.progress,
        a.w.s.runtime.block_fill_cutoff,
        a.w.s.in_flight_cus,
    );
    lemma_auction_workers_served(a, budget as u64, 1, a.w.b.workers.len() as int);
}

/// A round ends with checks: unless the validator leads, the check worker's queue
/// then holds as many messages as it is meant to, or as it can, or nothing waits
/// to be checked, of what waited before and of what arrived. The batch scheduler.
pub proof fn lemma_batch_round_checks(b: BatchWorld, input: PollModel)
    requires
        !b.take_in(input).1,
        b.take_in(input).0.w.b.workers.len() > 0,
    ensures
        ({
            let after = b.poll(input).w;
            ||| after.b.workers[0].len >= after.b.workers[0].capacity
            ||| after.b.workers[0].len >= b.take_in(input).0.w.s.runtime.max_check_batches
            ||| nothing_to_check(after.s)
        }),
{
    lemma_checks_asked_for(b.take_in(input).0.w);
}

/// A round ends with checks, with the auction scheduler too.
pub proof fn lemma_auction_round_checks(
    a: AuctionWorld,
    input: PollModel,
    scores: Seq<u64>,
    update_scores: Seq<Seq<u64>>,
)
    requires
        !a.take_in(input, scores, update_scores).1,
        a.take_in(input, scores, update_scores).0.w.b.workers.len() > 0,
    ensures
        ({
            let taken = a.take_in(input, scores, update_scores).0.w;
            let after = a.poll(input, scores, update_scores).w;
            ||| after.b.workers[0].len >= after.b.workers[0].capacity
            ||| after.b.workers[0].len >= taken.s.runtime.max_check_batches
            ||| nothing_to_check(after.s)
        }),
{
    lemma_checks_asked_for(a.take_in(input, scores, update_scores).0.w);
}

/// While the validator leads, a round ends with every idle worker served, as far
/// as the budget of the block and what waits allow, and with repeated checks of
/// what still waits under way. The batch scheduler.
#[verifier::rlimit(50)]
pub proof fn lemma_batch_round_executes(b: BatchWorld, input: PollModel)
    requires
        b.take_in(input).1,
        ({
            let taken = b.take_in(input).0.w;
            &&& increasing::<PriorityId>(taken.s.checked)
            &&& bundles_hold_something(taken.s.bundles)
            &&& 0 < taken.b.workers.len() <= usize::MAX
            &&& taken.s.in_flight_cus <= 60_000_000
        }),
    ensures
        ({
            let taken = b.take_in(input).0.w;
            let after = b.poll(input);
            let budget = budget_of(
                taken.b.progress,
                taken.s.runtime.block_fill_cutoff,
                taken.s.in_flight_cus,
            );
            let left = budget - (after.w.s.in_flight_cus - taken.s.in_flight_cus);
            &&& {
                ||| forall|i: int|
                    1 <= i < taken.b.workers.len() ==> (#[trigger] after.w.b.workers[i]).len > 0
                ||| left == 0
                ||| batch_stuck(after, left as u64)
            }
            &&& after.w.s.checked.len() > 0 ==> after.w.s.next_recheck is Some
        }),
{
    let taken = b.take_in(input).0;
    lemma_checks_asked_for(taken.w);
    let checks = BatchWorld { w: taken.w.schedule_checks(), ..taken };
    lemma_schedule_checks_steady(taken.w);
    lemma_checks_keep_flight(taken.w, taken.w.check_room());
    lemma_batch_leader_schedules(checks);
    let executed = checks.schedule_execute();
    let after = b.poll(input);
    assert(after.w.s.checked == executed.w.s.checked);
    assert(after.w.s.bundles == executed.w.s.bundles);
    assert(after.w.b == executed.w.b);
    assert(after.locks == executed.locks);
    assert forall|left: u64| #[trigger] batch_stuck(executed, left) implies batch_stuck(
        after,
        left,
    ) by {
        assert(forall|key: u64| #[trigger] after.can_lock(key) == executed.can_lock(key));
    }
}

/// While the validator leads, a round ends with every idle worker served, as far
/// as the budget of the block and what waits allow, and with repeated checks of
/// what still waits under way. The auction scheduler.
#[verifier::rlimit(50)]
pub proof fn lemma_auction_round_executes(
    a: AuctionWorld,
    input: PollModel,
    scores: Seq<u64>,
    update_scores: Seq<Seq<u64>>,
)
    requires
        a.take_in(input, scores, update_scores).1,
        ({
            let taken = a.take_in(input, scores, update_scores).0;
            &&& orderly(taken.w)
            &&& exact_holders(taken)
            &&& increasing::<PriorityId>(taken.w.s.checked)
            &&& bundles_hold_something(taken.w.s.bundles)
            &&& 0 < taken.w.b.workers.len() <= usize::MAX
            &&& taken.w.s.in_flight_cus <= 60_000_000
        }),
    ensures
        ({
            let taken = a.take_in(input, scores, update_scores).0.w;
            let after = a.poll(input, scores, update_scores);
            let budget = budget_of(
                taken.b.progress,
                taken.s.runtime.block_fill_cutoff,
                taken.s.in_flight_cus,
            );
            let left = budget - (after.w.s.in_flight_cus - taken.s.in_flight_cus);
            &&& {
                ||| forall|i: int|
                    1 <= i < taken.b.workers.len() ==> (#[trigger] after.w.b.workers[i]).len > 0
                ||| left == 0
                ||| auction_stuck(after, left as u64)
            }
            &&& after.w.s.checked.len() > 0 ==> after.w.s.next_recheck is Some
        }),
{
    let taken = a.take_in(input, scores, update_scores).0;
    lemma_checks_asked_for(taken.w);
    let checks = AuctionWorld { w: taken.w.schedule_checks(), ..taken };
    lemma_schedule_checks_steady(taken.w);
    lemma_schedule_checks(taken.w);
    lemma_schedule_checks_still(taken.w);
    lemma_stable_exact(taken, checks);
    lemma_checks_keep_flight(taken.w, taken.w.check_room());
    lemma_auction_leader_schedules(checks);
    let executed = checks.schedule_execute();
    let after = a.poll(input, scores, update_scores);
    assert(after.w.s.checked == executed.w.s.checked);
    assert(after.w.s.bundles == executed.w.s.bundles);
    assert(after.w.b == executed.w.b);
    assert(after.held == executed.held);
    assert forall|left: u64| #[trigger] auction_stuck(executed, left) implies auction_stuck(
        after,
        left,
    ) by {
        assert(forall|key: u64| #[trigger] after.can_lock(key) == executed.can_lock(key));
    }
}

proof fn lemma_checks_keep_flight(w: World, n: nat)
    ensures
        w.send_checks(n).s.in_flight_cus == w.s.in_flight_cus,
        w.send_checks(n).b.workers.len() == w.b.workers.len(),
    decreases n,
{
    if n == 0 || w.check_room() == 0 || w.b.workers[0].len >= w.s.runtime.max_check_batches {
    } else {
        let (s, batch) = w.s.fill_checks(Seq::empty(), 64);
        lemma_fill_keeps_flight(w.s, Seq::empty(), 64);
        if batch.len() > 0 {
            lemma_checks_keep_flight(
                World {
                    s,
                    b: w.b.scheduled(
                        BatchModel {
                            worker: crate::bridge::CHECK_WORKER,
                            transactions: batch,
                            max_working_slot: u64::MAX,
                            flags: crate::bridge::CHECK_FLAGS,
                        },
                    ),
                },
                (n - 1) as nat,
            );
        }
    }
}

proof fn lemma_fill_keeps_flight(s: CoreModel, batch: Seq<KeyedTransactionMeta>, n: nat)
    ensures
        s.fill_checks(batch, n).0.in_flight_cus == s.in_flight_cus,
    decreases n,
{
    if n > 0 {
        if let (next, Some(id)) = s.next_check() {
            lemma_fill_keeps_flight(
                next,
                batch.push(KeyedTransactionMeta { key: id.key, meta: id }),
                (n - 1) as nat,
            );
        }
    }
}

/// A round executes exactly if the validator, by what it said last, leads.
pub proof fn lemma_round_leads(
    b: BatchWorld,
    a: AuctionWorld,
    input: PollModel,
    scores: Seq<u64>,
    update_scores: Seq<Seq<u64>>,
)
    ensures
        b.take_in(input).1 <==> (match input.progress {
            Some(progress) => progress.leader_state == 2,
            None => b.w.b.progress.leader_state == 2,
        }),
        a.take_in(input, scores, update_scores).1 <==> (match input.progress {
            Some(progress) => progress.leader_state == 2,
            None => a.w.b.progress.leader_state == 2,
        }),
{
    let n = input.responses.len() as int;
    crate::batch_scheduler::lemma_slot_roll_steady(b, input.progress, input.now);
    crate::frames::lemma_responses_steady(
        b.check_slot_roll(input.progress, input.now),
        input.responses,
        n,
    );
    crate::auction_frames::lemma_auction_roll_steady(a, input.progress, input.now);
    crate::auction_frames::lemma_auction_responses_steady(
        a.check_slot_roll(input.progress, input.now),
        input.responses,
        n,
    );
}

proof fn lemma_batch_execute_leaves(b: BatchWorld, budget: u64, worker: int, n: int, i: int)
    requires
        increasing::<PriorityId>(b.w.s.checked),
        bundles_hold_something(b.w.s.bundles),
        0 <= i < worker,
        n <= b.w.b.workers.len() <= usize::MAX,
        i < b.w.b.workers.len(),
    ensures
        b.execute_from(budget, worker, n).w.b.workers[i] == b.w.b.workers[i],
        b.execute_from(budget, worker, n).w.s.unchecked == b.w.s.unchecked,
    decreases n - worker,
{
    if worker < n && budget > 0 {
        if b.w.b.workers[worker].len != 0 {
            lemma_batch_execute_leaves(b, budget, worker + 1, n, i);
        } else {
            let (next, left, batch) = b.try_best(budget, worker as usize);
            lemma_batch_step(b, budget, worker as usize);
            if b.w.s.bundles.len() > 0 {
                let keys = b.w.s.bundles.last().keys;
                lemma_locked_world(b, keys, keys.len() as int);
            }
            if batch.len() > 0 {
                lemma_mark_executing_steady(next.w, batch, batch.len() as int);
                lemma_marked_unchecked(next.w, batch, batch.len() as int);
                let started = BatchWorld { w: next.w.start_batch(batch), ..next };
                lemma_batch_execute_leaves(started, left, worker + 1, n, i);
            }
        }
    }
}

proof fn lemma_marked_unchecked(w: World, batch: Seq<KeyedTransactionMeta>, n: int)
    ensures
        w.mark_executing_upto(batch, n).s.unchecked == w.s.unchecked,
    decreases n,
{
    if n > 0 {
        lemma_marked_unchecked(w, batch, n - 1);
    }
}

/// A round in which the validator leads asks for checks as well: in the end the
/// check worker's queue holds as many messages as it is meant to, or as it can,
/// or nothing waits to be checked for the first time. The batch scheduler.
pub proof fn lemma_batch_leader_checks(b: BatchWorld, input: PollModel)
    requires
        ({
            let taken = b.take_in(input).0.w;
            &&& increasing::<PriorityId>(taken.s.checked)
            &&& bundles_hold_something(taken.s.bundles)
            &&& 0 < taken.b.workers.len() <= usize::MAX
        }),
    ensures
        ({
            let after = b.poll(input).w;
            ||| after.b.workers[0].len >= after.b.workers[0].capacity
            ||| after.b.workers[0].len >= b.take_in(input).0.w.s.runtime.max_check_batches
            ||| after.s.unchecked.len() == 0
        }),
{
    let taken = b.take_in(input).0;
    lemma_checks_asked_for(taken.w);
    lemma_schedule_checks_steady(taken.w);
    let checks = BatchWorld { w: taken.w.schedule_checks(), ..taken };
    let budget = budget_of(
        checks.w.b.progress,
        checks.w.s.runtime.block_fill_cutoff,
        checks.w.s.in_flight_cus,
    ) as u64;
    lemma_batch_execute_leaves(checks, budget, 1, checks.w.b.workers.len() as int, 0);
}

proof fn lemma_removed_unchecked(w: World, txs: Seq<PriorityId>, n: int)
    ensures
        w.remove_checked_upto(txs, n).s.unchecked == w.s.unchecked,
    decreases n,
{
    if n > 0 {
        lemma_removed_unchecked(w, txs, n - 1);
    }
}

proof fn lemma_auction_execute_leaves(a: AuctionWorld, budget: u64, worker: int, n: int, i: int)
    requires
        orderly(a.w),
        exact_holders(a),
        increasing::<PriorityId>(a.w.s.checked),
        bundles_hold_something(a.w.s.bundles),
        0 <= i < worker,
        n <= a.w.b.workers.len() <= usize::MAX,
        i < a.w.b.workers.len(),
    ensures
        a.execute_from(budget, worker, n).w.b.workers[i] == a.w.b.workers[i],
        a.execute_from(budget, worker, n).w.s.unchecked == a.w.s.unchecked,
    decreases n - worker,
{
    if worker < n && budget > 0 {
        if a.w.b.workers[worker].len != 0 {
            lemma_auction_execute_leaves(a, budget, worker + 1, n, i);
        } else {
            let (next, left, batch) = a.try_best(budget, worker as usize);
            lemma_auction_step(a, budget, worker as usize);
            if batch.len() > 0 {
                lemma_auction_unchecked(a, budget, worker as usize);
                lemma_mark_executing_steady(next.w, batch, batch.len() as int);
                lemma_marked_unchecked(next.w, batch, batch.len() as int);
                let started = AuctionWorld { w: next.w.start_batch(batch), ..next };
                lemma_auction_execute_leaves(started, left, worker + 1, n, i);
            }
        }
    }
}

proof fn lemma_auction_unchecked(a: AuctionWorld, budget: u64, worker: usize)
    requires
        orderly(a.w),
        exact_holders(a),
        increasing::<PriorityId>(a.w.s.checked),
        bundles_hold_something(a.w.s.bundles),
        a.try_best(budget, worker).2.len() > 0,
    ensures
        a.try_best(budget, worker).0.w.s.unchecked == a.w.s.unchecked,
{
    if a.w.s.bundles.len() > 0 {
        assert(a.w.s.bundles[a.w.s.bundles.len() - 1].keys.len() > 0);
    }
    crate::choice_laws::lemma_second_try(a, budget, worker);
    let checked = a.w.s.checked;
    let n = if checked.len() < SEARCH_LIMIT {
        checked.len() as int
    } else {
        SEARCH_LIMIT as int
    };
    let p = pick_upto(a.held, a.w.b, checked, budget, n);
    let message = BatchModel {
        worker,
        transactions: crate::auction_model::picked_message(p.picked),
        max_working_slot: (a.w.b.progress.current_slot + 1) as u64,
        flags: crate::bridge::EXECUTE_FLAGS,
    };
    let sent = World { b: a.w.b.scheduled(message), ..a.w };
    lemma_removed_unchecked(sent, p.picked, p.picked.len() as int);
    if a.w.s.bundles.len() > 0 {
        let bundle = a.w.s.bundles.last();
        let whole = World {
            b: a.w.b.scheduled(
                BatchModel {
                    worker,
                    transactions: crate::queues::bundle_message(bundle.keys, bundle.cost),
                    max_working_slot: (a.w.b.progress.current_slot + 1) as u64,
                    flags: crate::bridge::EXECUTE_BUNDLE_FLAGS,
                },
            ),
            ..a.w
        };
        lemma_dequeued_bridge(whole, bundle.keys, bundle.keys.len() as int);
    }
}

/// A round in which the validator leads asks for checks as well. The auction
/// scheduler.
pub proof fn lemma_auction_leader_checks(
    a: AuctionWorld,
    input: PollModel,
    scores: Seq<u64>,
    update_scores: Seq<Seq<u64>>,
)
    requires
        ({
            let taken = a.take_in(input, scores, update_scores).0;
            &&& orderly(taken.w)
            &&& exact_holders(taken)
            &&& increasing::<PriorityId>(taken.w.s.checked)
            &&& bundles_hold_something(taken.w.s.bundles)
            &&& 0 < taken.w.b.workers.len() <= usize::MAX
        }),
    ensures
        ({
            let taken = a.take_in(input, scores, update_scores).0.w;
            let after = a.poll(input, scores, update_scores).w;
            ||| after.b.workers[0].len >= after.b.workers[0].capacity
            ||| after.b.workers[0].len >= taken.s.runtime.max_check_batches
            ||| after.s.unchecked.len() == 0
        }),
{
    let taken = a.take_in(input, scores, update_scores).0;
    lemma_checks_asked_for(taken.w);
    lemma_schedule_checks_steady(taken.w);
    lemma_schedule_checks(taken.w);
    lemma_schedule_checks_still(taken.w);
    let checks = AuctionWorld { w: taken.w.schedule_checks(), ..taken };
    lemma_stable_exact(taken, checks);
    let budget = budget_of(
        checks.w.b.progress,
        checks.w.s.runtime.block_fill_cutoff,
        checks.w.s.in_flight_cus,
    ) as u64;
    lemma_auction_execute_leaves(checks, budget, 1, checks.w.b.workers.len() as int, 0);
}

/// What a step of scheduling sends is executing from then on, and its cost in
/// flight; a step that sends nothing starts nothing.
pub proof fn lemma_sent_then_executes(b: BatchWorld, a: AuctionWorld, budget: u64, worker: usize)
    ensures
        ({
            let (tried, left, batch) = b.try_best(budget, worker);
            let (next, rest, sent) = b.schedule_best(budget, worker);
            &&& rest == left && sent == batch
            &&& sent.len() > 0 ==> next.w == tried.w.start_batch(sent) && next.locks == tried.locks
            &&& sent.len() == 0 ==> next == tried
        }),
        ({
            let (tried, left, batch) = a.try_best(budget, worker);
            let (next, rest, sent) = a.schedule_best(budget, worker);
            &&& rest == left && sent == batch
            &&& sent.len() > 0 ==> next.w == tried.w.start_batch(sent) && next.held == tried.held
            &&& sent.len() == 0 ==> next == tried
        }),
{
}

/// A worker that still has something to do is given nothing more, and an idle one
/// no more than one message. The batch scheduler.
pub proof fn lemma_batch_busy_left_alone(b: BatchWorld, budget: u64, worker: int, n: int, i: int)
    requires
        increasing::<PriorityId>(b.w.s.checked),
        bundles_hold_something(b.w.s.bundles),
        0 <= worker <= i < n,
        n <= b.w.b.workers.len() <= usize::MAX,
    ensures
        ({
            let after = b.execute_from(budget, worker, n).w.b.workers;
            &&& b.w.b.workers[i].len > 0 ==> after[i] == b.w.b.workers[i]
            &&& b.w.b.workers[i].len == 0 ==> after[i].len <= 1
        }),
    decreases n - worker,
{
    if budget > 0 {
        if b.w.b.workers[worker].len != 0 {
            if worker == i {
                lemma_batch_execute_leaves(b, budget, worker + 1, n, i);
            } else {
                lemma_batch_busy_left_alone(b, budget, worker + 1, n, i);
            }
        } else {
            let (next, left, batch) = b.try_best(budget, worker as usize);
            lemma_batch_step(b, budget, worker as usize);
            if batch.len() > 0 {
                lemma_mark_executing_steady(next.w, batch, batch.len() as int);
                let started = BatchWorld { w: next.w.start_batch(batch), ..next };
                if worker == i {
                    lemma_batch_execute_leaves(started, left, worker + 1, n, i);
                } else {
                    lemma_batch_busy_left_alone(started, left, worker + 1, n, i);
                }
            }
        }
    }
}

/// A worker that still has something to do is given nothing more, and an idle one
/// no more than one message. The auction scheduler.
pub proof fn lemma_auction_busy_left_alone(
    a: AuctionWorld,
    budget: u64,
    worker: int,
    n: int,
    i: int,
)
    requires
        orderly(a.w),
        exact_holders(a),
        increasing::<PriorityId>(a.w.s.checked),
        bundles_hold_something(a.w.s.bundles),
        0 <= worker <= i < n,
        n <= a.w.b.workers.len() <= usize::MAX,
    ensures
        ({
            let after = a.execute_from(budget, worker, n).w.b.workers;
            &&& a.w.b.workers[i].len > 0 ==> after[i] == a.w.b.workers[i]
            &&& a.w.b.workers[i].len == 0 ==> after[i].len <= 1
        }),
    decreases n - worker,
{
    if budget > 0 {
        if a.w.b.workers[worker].len != 0 {
            if worker == i {
                lemma_auction_execute_leaves(a, budget, worker + 1, n, i);
            } else {
                lemma_auction_busy_left_alone(a, budget, worker + 1, n, i);
            }
        } else {
            let (next, left, batch) = a.try_best(budget, worker as usize);
            lemma_auction_step(a, budget, worker as usize);
            if batch.len() > 0 {
                lemma_mark_executing_steady(next.w, batch, batch.len() as int);
                let started = AuctionWorld { w: next.w.start_batch(batch), ..next };
                if worker == i {
                    lemma_auction_execute_leaves(started, left, worker + 1, n, i);
                } else {
                    lemma_auction_busy_left_alone(started, left, worker + 1, n, i);
                }
            }
        }
    }
}

} // verus!
