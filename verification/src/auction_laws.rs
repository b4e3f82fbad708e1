//! What holds of the auction scheduler.

use vstd::prelude::*;

use crate::auction_engine::{
    acquired, acquired_upto, grants, grants_all, holders_at, holds_nothing, lemma_acquired_at,
    lemma_granted_writers_alone, lemma_released_at, no_idle_entry, released, writers_alone, Holders,
};
use crate::auction_frames::{
    lemma_auction_drain_tpu_steady, lemma_auction_responses_steady, lemma_auction_roll_steady,
    lemma_auction_updates_steady, lemma_remove_checked_steady,
};
use crate::auction_model::{
    acquire_upto, granted_prefix, pick_upto, picked_message, release_upto, rolled_back, AuctionWorld,
    Picking, MAX_BATCH_SIZE, SEARCH_LIMIT,
};
use crate::auction_scheduler::lemma_pick_cost;
use crate::batch_scheduler::lemma_roll_slot;
use crate::bridge::{
    ActionModel, BatchModel, BridgeModel, TxDecision, EXECUTE_BUNDLE_FLAGS, EXECUTE_WORKER_START,
};
use crate::frames::{
    lemma_drop_expired_steady, lemma_mark_executing_steady, lemma_roll_starts_nothing,
    lemma_schedule_checks_steady, lemma_starts_nothing_chain, starts_nothing, steady_core,
};
use crate::idle::{
    auction_idle_round,
    lemma_auction_responses_settle, lemma_auction_tpu_settle, lemma_auction_updates_settle,
    lemma_drop_expired_idle, lemma_make_room_idle, lemma_roll_idle, lemma_schedule_checks_idle,
    touched_in_round,
};
use crate::ordered::{increasing, lemma_with_item, Ordered};
use crate::pubkey::Pubkey;
use crate::queues::{
    bundle_message, lemma_bundle_message_cost, lemma_message_cost_monotone, message_cost,
};
use crate::scheduler_laws::{lemma_leader_seen_once, lemma_start_adds_cost};
use crate::scheduler_model::World;
use crate::shared::{PriorityId, BUNDLE_MARKER};
use crate::worker::{budget_of, fill_percentage, floored, round_limit, PollModel, MAX_BLOCK_UNITS};

verus! {

/// As long as the validator does not lead, a round sends nothing to be executed,
/// and nothing starts to execute. A transaction that waits to be executed still
/// does after the round, unless a worker's answer was about it, or it was the one
/// of lowest priority when something came and there was no room for more.
pub proof fn lemma_only_leaders_execute(
    a: AuctionWorld,
    input: PollModel,
    tpu_scores: Seq<u64>,
    update_scores: Seq<Seq<u64>>,
)
    requires
        a.follows(input),
        increasing::<PriorityId>(a.w.s.checked),
        a.w.s.executing.dom().finite(),
    ensures
        auction_idle_round(
            a,
            a.poll(input, tpu_scores, update_scores),
            input,
            tpu_scores,
            update_scores,
        ),
{
    let now = input.now;
    let noted = a.w.note_progress_or_starve(input.progress, now);
    lemma_auction_roll_steady(a, input.progress, now);
    lemma_roll_starts_nothing(noted);
    let rolled = a.check_slot_roll(input.progress, now);
    assert(starts_nothing(a.w.b.actions, rolled.w.b.actions));
    let n = input.responses.len() as int;
    lemma_auction_responses_steady(rolled, input.responses, n);
    let answered = rolled.on_responses(input.responses, n);
    assert(!answered.is_leader());
    lemma_auction_drain_tpu_steady(answered, input.tpu, tpu_scores, round_limit(false));
    let drained = answered.drain_tpu(input.tpu, tpu_scores, round_limit(false));
    lemma_drop_expired_steady(drained.w, now);
    let fresh = AuctionWorld { w: drained.w.drop_expired_bundles(now), ..drained };
    let m = input.updates.len() as int;
    lemma_auction_updates_steady(fresh, input.updates, update_scores, now, m);
    let taken = fresh.on_updates(input.updates, update_scores, now, m);
    lemma_schedule_checks_steady(taken.w);
    lemma_roll_idle(noted);
    lemma_auction_responses_settle(rolled, input.responses, n);
    let limit = round_limit(false);
    let count = if input.tpu.len() < limit {
        input.tpu.len() as int
    } else {
        limit
    };
    let room = AuctionWorld { w: answered.w.make_room(count as nat), ..answered };
    lemma_make_room_idle(answered.w, count as nat);
    lemma_auction_tpu_settle(room, input.tpu, tpu_scores, count);
    lemma_drop_expired_idle(drained.w, now);
    lemma_auction_updates_settle(fresh, input.updates, update_scores, now, m);
    lemma_schedule_checks_idle(taken.w);
    let after = a.poll(input, tpu_scores, update_scores);
    assert(after.w == taken.w.schedule_checks());
    assert forall|id: PriorityId| #[trigger] a.w.s.checked.contains(id) implies after.w.s.checked.contains(
        id,
    ) || touched_in_round(a, input, tpu_scores, update_scores, id) by {
        assert(rolled.w.s.checked.contains(id));
        if answered.w.s.checked.contains(id) {
            assert(room.w.s.checked.contains(id));
            if drained.w.s.checked.contains(id) {
                assert(fresh.w.s.checked.contains(id));
            }
        }
    }
    let start = a.w.b.actions;
    lemma_starts_nothing_chain(start, rolled.w.b.actions, answered.w.b.actions);
    lemma_starts_nothing_chain(start, answered.w.b.actions, drained.w.b.actions);
    lemma_starts_nothing_chain(start, drained.w.b.actions, fresh.w.b.actions);
    lemma_starts_nothing_chain(start, fresh.w.b.actions, taken.w.b.actions);
    lemma_starts_nothing_chain(start, taken.w.b.actions, taken.w.schedule_checks().b.actions);
}

/// Transactions are picked from the highest priority down, no more than a
/// message holds.
pub proof fn lemma_picks_descend(
    held: Holders,
    b: BridgeModel,
    checked: Seq<PriorityId>,
    budget: u64,
    n: int,
)
    requires
        increasing::<PriorityId>(checked),
        0 <= n <= checked.len(),
    ensures
        ({
            let picked = pick_upto(held, b, checked, budget, n).picked;
            &&& picked.len() <= MAX_BATCH_SIZE
            &&& forall|i: int| 0 <= i < picked.len() ==> checked.skip(checked.len() - n).contains(
                #[trigger] picked[i],
            )
            &&& forall|i: int, j: int|
                #![trigger picked[i], picked[j]]
                0 <= i < j < picked.len() ==> PriorityId::before(picked[j], picked[i])
        }),
    decreases n,
{
    if n > 0 {
        lemma_picks_descend(held, b, checked, budget, n - 1);
        let before = pick_upto(held, b, checked, budget, n - 1).picked;
        let picked = pick_upto(held, b, checked, budget, n).picked;
        let tx = checked[checked.len() - n];
        let seen = checked.skip(checked.len() - n + 1);
        let all = checked.skip(checked.len() - n);
        assert forall|x: PriorityId| seen.contains(x) implies #[trigger] all.contains(x) by {
            let k = seen.index_of(x);
            assert(all[k + 1] == x);
        }
        assert(all[0] == tx);
        assert forall|i: int, j: int|
            #![trigger picked[i], picked[j]]
            0 <= i < j < picked.len() implies PriorityId::before(picked[j], picked[i]) by {
            if picked != before && j == picked.len() - 1 {
                assert(picked[i] == before[i]);
                let k = seen.index_of(before[i]);
                assert(checked[checked.len() - n + 1 + k] == before[i]);
            } else {
                assert(picked[i] == before[i] && picked[j] == before[j]);
            }
        }
        assert forall|i: int| 0 <= i < picked.len() implies all.contains(#[trigger] picked[i]) by {
            if i < before.len() {
                assert(seen.contains(before[i]));
            }
        }
    }
}

proof fn lemma_first_pick(
    held: Holders,
    b: BridgeModel,
    checked: Seq<PriorityId>,
    budget: u64,
    n: int,
)
    requires
        0 < n <= checked.len(),
        checked.last().cost <= budget,
        grants_all(held, b.locks(checked.last().key)),
    ensures
        pick_upto(held, b, checked, budget, n).picked.len() > 0,
        pick_upto(held, b, checked, budget, n).picked[0] == checked.last(),
    decreases n,
{
    if n > 1 {
        lemma_first_pick(held, b, checked, budget, n - 1);
    } else {
        assert(pick_upto(held, b, checked, budget, 0).picked.len() == 0);
    }
}

/// The transaction of highest priority is not passed over, if it fits and its
/// locks are granted.
pub proof fn lemma_highest_not_passed_over(a: AuctionWorld, budget: u64, worker: usize)
    requires
        a.w.s.checked.len() > 0,
        a.w.s.checked.last().cost <= budget,
        a.can_lock(a.w.s.checked.last().key),
    ensures
        a.try_transactions(budget, worker).2.len() > 0,
        a.try_transactions(budget, worker).2[0].meta == a.w.s.checked.last(),
{
    let checked = a.w.s.checked;
    let n = if checked.len() < SEARCH_LIMIT {
        checked.len() as int
    } else {
        SEARCH_LIMIT as int
    };
    lemma_first_pick(a.held, a.w.b, checked, budget, n);
}

/// Taking locks leaves every account held that was held.
proof fn lemma_acquired_still_held(
    table: Holders,
    key: u64,
    locks: Seq<(Pubkey, bool)>,
    n: int,
    account: Pubkey,
    holder: u64,
)
    requires
        0 <= n <= locks.len(),
        holders_at(table, account).contains_key(holder),
    ensures
        ({
            let taken = holders_at(acquired_upto(table, key, locks, n), account);
            &&& taken.contains_key(holder)
            &&& (forall|i: int| 0 <= i < n ==> (#[trigger] locks[i]).0 != account)
                ==> taken[holder] == holders_at(table, account)[holder]
        }),
    decreases n,
{
    if n > 0 {
        lemma_acquired_still_held(table, key, locks, n - 1, account, holder);
    }
}

/// Locks that could not be granted are not granted after others were.
proof fn lemma_refused_stays_refused(
    table: Holders,
    key: u64,
    locks: Seq<(Pubkey, bool)>,
    other: Seq<(Pubkey, bool)>,
)
    requires
        grants_all(table, locks),
        !grants_all(table, other),
    ensures
        !grants_all(acquired(table, key, locks), other),
{
    let n = locks.len() as int;
    let i = choose|i: int|
        0 <= i < other.len() && !grants(holders_at(table, (#[trigger] other[i]).0), other[i].1);
    let account = other[i].0;
    let before = holders_at(table, account);
    let taken = holders_at(acquired(table, key, locks), account);
    let holder = if other[i].1 {
        choose|k: u64| #[trigger] before.contains_key(k)
    } else {
        choose|k: u64| #[trigger] before.contains_key(k) && before[k]
    };
    assert(before.contains_key(holder)) by {
        if other[i].1 {
            assert(exists|k: u64| #[trigger] before.contains_key(k)) by {
                if forall|k: u64| !#[trigger] before.contains_key(k) {
                    assert(before =~= Map::empty());
                }
            }
        }
    }
    lemma_acquired_still_held(table, key, locks, n, account, holder);
    if other[i].1 {
        assert(!(taken =~= Map::empty()));
    } else {
        assert forall|j: int| 0 <= j < n implies (#[trigger] locks[j]).0 != account by {
            if locks[j].0 == account {
                assert(grants(holders_at(table, locks[j].0), locks[j].1));
            }
        }
    }
    assert(!grants(taken, other[i].1));
}

proof fn lemma_pick_leaves_nothing(
    held: Holders,
    b: BridgeModel,
    checked: Seq<PriorityId>,
    budget: u64,
    n: int,
    k: int,
)
    requires
        0 <= n <= checked.len(),
        checked.len() - n <= k < checked.len(),
    ensures
        ({
            let p = pick_upto(held, b, checked, budget, n);
            ||| p.picked.contains(checked[k])
            ||| p.picked.len() >= MAX_BATCH_SIZE
            ||| checked[k].cost > p.budget
            ||| !grants_all(p.held, b.locks(checked[k].key))
        }),
    decreases n,
{
    let before = pick_upto(held, b, checked, budget, n - 1);
    let p = pick_upto(held, b, checked, budget, n);
    let tx = checked[checked.len() - n];
    if k == checked.len() - n {
        if p.picked.len() > before.picked.len() {
            assert(p.picked[before.picked.len() as int] == tx);
        }
    } else {
        lemma_pick_leaves_nothing(held, b, checked, budget, n - 1, k);
        if before.picked.contains(checked[k]) {
            let i = before.picked.index_of(checked[k]);
            assert(p.picked[i] == checked[k]);
        } else if p.picked.len() > before.picked.len() && !grants_all(
            before.held,
            b.locks(checked[k].key),
        ) {
            lemma_refused_stays_refused(
                before.held,
                tx.key,
                b.locks(tx.key),
                b.locks(checked[k].key),
            );
        }
    }
}

/// A transaction that cannot be started holds back no other: of the waiting
/// transactions that were looked at, one that was not started finds the message
/// full, or exceeds the budget that is left, or conflicts with what executes.
pub proof fn lemma_no_transaction_held_back(a: AuctionWorld, budget: u64, worker: usize, k: int)
    requires
        0 <= k < a.w.s.checked.len(),
        a.w.s.checked.len() - k <= 65536,
        forall|i: int|
            0 <= i < a.try_transactions(budget, worker).2.len() ==> (
            #[trigger] a.try_transactions(budget, worker).2[i]).meta != a.w.s.checked[k],
    ensures
        ({
            let tx = a.w.s.checked[k];
            let (next, left, batch) = a.try_transactions(budget, worker);
            ||| batch.len() >= 32
            ||| tx.cost > left
            ||| !grants_all(next.held, a.w.b.locks(tx.key))
        }),
{
    let checked = a.w.s.checked;
    let n = if checked.len() < SEARCH_LIMIT {
        checked.len() as int
    } else {
        SEARCH_LIMIT as int
    };
    let p = pick_upto(a.held, a.w.b, checked, budget, n);
    lemma_pick_leaves_nothing(a.held, a.w.b, checked, budget, n, k);
    lemma_nothing_picked(a.held, a.w.b, checked, budget, n);
    let batch = a.try_transactions(budget, worker).2;
    if p.picked.contains(checked[k]) {
        let i = p.picked.index_of(checked[k]);
        assert(batch[i].meta == checked[k]);
    }
}

/// Where nothing is picked, nothing changes.
proof fn lemma_nothing_picked(
    held: Holders,
    b: BridgeModel,
    checked: Seq<PriorityId>,
    budget: u64,
    n: int,
)
    ensures
        pick_upto(held, b, checked, budget, n).picked.len() == 0 ==> pick_upto(
            held,
            b,
            checked,
            budget,
            n,
        ) == (Picking { held, budget, picked: Seq::empty() }),
    decreases n,
{
    if n > 0 {
        lemma_nothing_picked(held, b, checked, budget, n - 1);
    }
}

proof fn lemma_pick_writes_alone(
    held: Holders,
    b: BridgeModel,
    checked: Seq<PriorityId>,
    budget: u64,
    n: int,
)
    requires
        0 <= n <= checked.len(),
        writers_alone(held),
    ensures
        writers_alone(pick_upto(held, b, checked, budget, n).held),
    decreases n,
{
    if n > 0 {
        lemma_pick_writes_alone(held, b, checked, budget, n - 1);
        let before = pick_upto(held, b, checked, budget, n - 1);
        let tx = checked[checked.len() - n];
        if grants_all(before.held, b.locks(tx.key)) {
            lemma_granted_writers_alone(before.held, tx.key, b.locks(tx.key));
        }
    }
}

proof fn lemma_acquire_writes_alone(held: Holders, b: BridgeModel, keys: Seq<u64>, n: int)
    requires
        0 <= n <= keys.len(),
        writers_alone(held),
    ensures
        acquire_upto(held, b, keys, n) matches Some(taken) ==> writers_alone(taken),
    decreases n,
{
    if n > 0 {
        lemma_acquire_writes_alone(held, b, keys, n - 1);
        match acquire_upto(held, b, keys, n - 1) {
            Some(before) => {
                if grants_all(before, b.locks(keys[n - 1])) {
                    lemma_granted_writers_alone(before, keys[n - 1], b.locks(keys[n - 1]));
                }
            },
            None => {},
        }
    }
}

/// What is started, transactions and bundles alike, leaves every writer alone
/// on its accounts: nothing that executes conflicts.
pub proof fn lemma_started_write_alone(a: AuctionWorld, budget: u64, worker: usize)
    requires
        writers_alone(a.held),
        no_idle_entry(a.held),
        a.w.s.bundles.len() > 0 ==> ({
            let keys = a.w.s.bundles.last().keys;
            &&& keys.no_duplicates()
            &&& forall|i: int| 0 <= i < keys.len() ==> holds_nothing(
                a.held,
                #[trigger] keys[i],
                a.w.b.locks(keys[i]),
            )
        }),
    ensures
        writers_alone(a.try_transactions(budget, worker).0.held),
        writers_alone(a.try_bundle(budget, worker).0.held),
{
    let checked = a.w.s.checked;
    let n = if checked.len() < SEARCH_LIMIT {
        checked.len() as int
    } else {
        SEARCH_LIMIT as int
    };
    lemma_pick_writes_alone(a.held, a.w.b, checked, budget, n);
    if a.w.s.bundles.len() > 0 {
        let keys = a.w.s.bundles.last().keys;
        lemma_acquire_writes_alone(a.held, a.w.b, keys, keys.len() as int);
        lemma_rolled_back_restores(a.held, a.w.b, keys);
    }
}

/// An account is among the locks.
pub open spec fn mentions(locks: Seq<(Pubkey, bool)>, account: Pubkey) -> bool {
    exists|i: int| 0 <= i < locks.len() && (#[trigger] locks[i]).0 == account
}

/// One of the first `n` transactions is `key` and locks the account.
spec fn touched(b: BridgeModel, keys: Seq<u64>, n: int, account: Pubkey, key: u64) -> bool {
    exists|j: int| 0 <= j < n && #[trigger] keys[j] == key && mentions(b.locks(key), account)
}

proof fn lemma_acquire_at(
    held: Holders,
    b: BridgeModel,
    keys: Seq<u64>,
    n: int,
    account: Pubkey,
    key: u64,
)
    requires
        0 <= n <= keys.len(),
        acquire_upto(held, b, keys, n) is Some,
    ensures
        !touched(b, keys, n, account, key) ==> ({
            let taken = acquire_upto(held, b, keys, n).unwrap();
            &&& holders_at(taken, account).contains_key(key) <==> holders_at(
                held,
                account,
            ).contains_key(key)
            &&& holders_at(held, account).contains_key(key) ==> holders_at(taken, account)[key]
                == holders_at(held, account)[key]
        }),
    decreases n,
{
    if n > 0 {
        lemma_acquire_at(held, b, keys, n - 1, account, key);
        let before = acquire_upto(held, b, keys, n - 1).unwrap();
        let locks = b.locks(keys[n - 1]);
        lemma_acquired_at(before, keys[n - 1], locks, locks.len() as int, account);
        if !touched(b, keys, n, account, key) {
            assert(!touched(b, keys, n - 1, account, key));
            if mentions(locks, account) {
                assert(keys[n - 1] != key);
            }
        }
    }
}

proof fn lemma_release_at(
    taken: Holders,
    b: BridgeModel,
    keys: Seq<u64>,
    n: int,
    account: Pubkey,
    key: u64,
)
    requires
        0 <= n <= keys.len(),
    ensures
        ({
            let left = release_upto(taken, b, keys, n);
            if touched(b, keys, n, account, key) {
                !holders_at(left, account).contains_key(key)
            } else {
                &&& holders_at(left, account).contains_key(key) <==> holders_at(
                    taken,
                    account,
                ).contains_key(key)
                &&& holders_at(taken, account).contains_key(key) ==> holders_at(left, account)[key]
                    == holders_at(taken, account)[key]
            }
        }),
    decreases n,
{
    if n > 0 {
        lemma_release_at(taken, b, keys, n - 1, account, key);
        let before = release_upto(taken, b, keys, n - 1);
        let locks = b.locks(keys[n - 1]);
        lemma_released_at(before, keys[n - 1], locks, locks.len() as int, account);
        if touched(b, keys, n - 1, account, key) {
            assert(touched(b, keys, n, account, key));
        }
        if keys[n - 1] == key && mentions(locks, account) {
            assert(touched(b, keys, n, account, key));
        }
        if touched(b, keys, n, account, key) && !touched(b, keys, n - 1, account, key) {
            assert(keys[n - 1] == key && mentions(locks, account));
        }
    }
}

proof fn lemma_acquired_no_idle(table: Holders, key: u64, locks: Seq<(Pubkey, bool)>)
    requires
        no_idle_entry(table),
    ensures
        no_idle_entry(acquired(table, key, locks)),
{
    let taken = acquired(table, key, locks);
    assert forall|account: Pubkey| #[trigger] taken.contains_key(account) implies taken[account]
        != Map::<u64, bool>::empty() by {
        lemma_acquired_at(table, key, locks, locks.len() as int, account);
        if mentions(locks, account) {
            assert(taken[account].contains_key(key));
        }
    }
}

proof fn lemma_released_no_idle(table: Holders, key: u64, locks: Seq<(Pubkey, bool)>)
    requires
        no_idle_entry(table),
    ensures
        no_idle_entry(released(table, key, locks)),
{
    let left = released(table, key, locks);
    assert forall|account: Pubkey| #[trigger] left.contains_key(account) implies left[account]
        != Map::<u64, bool>::empty() by {
        lemma_released_at(table, key, locks, locks.len() as int, account);
    }
}

proof fn lemma_upto_no_idle(held: Holders, b: BridgeModel, keys: Seq<u64>, n: int)
    requires
        0 <= n <= keys.len(),
        no_idle_entry(held),
    ensures
        acquire_upto(held, b, keys, n) matches Some(taken) ==> no_idle_entry(taken),
        no_idle_entry(release_upto(held, b, keys, n)),
    decreases n,
{
    if n > 0 {
        lemma_upto_no_idle(held, b, keys, n - 1);
        let locks = b.locks(keys[n - 1]);
        match acquire_upto(held, b, keys, n - 1) {
            Some(before) => {
                lemma_acquired_no_idle(before, keys[n - 1], locks);
            },
            None => {},
        }
        lemma_released_no_idle(release_upto(held, b, keys, n - 1), keys[n - 1], locks);
    }
}

pub(crate) proof fn lemma_prefix_granted(held: Holders, b: BridgeModel, keys: Seq<u64>, n: int)
    requires
        0 <= n,
    ensures
        0 <= granted_prefix(held, b, keys, n) <= n,
        acquire_upto(held, b, keys, granted_prefix(held, b, keys, n)) is Some,
    decreases n,
{
    if n > 0 {
        lemma_prefix_granted(held, b, keys, n - 1);
    }
}

/// A bundle that was tried in vain leaves every lock as it was.
pub proof fn lemma_rolled_back_restores(held: Holders, b: BridgeModel, keys: Seq<u64>)
    requires
        no_idle_entry(held),
        keys.no_duplicates(),
        forall|i: int| 0 <= i < keys.len() ==> holds_nothing(
            held,
            #[trigger] keys[i],
            b.locks(keys[i]),
        ),
    ensures
        rolled_back(held, b, keys) == held,
{
    let n = granted_prefix(held, b, keys, keys.len() as int);
    lemma_prefix_granted(held, b, keys, keys.len() as int);
    let taken = acquire_upto(held, b, keys, n).unwrap();
    let left = release_upto(taken, b, keys, n);
    lemma_upto_no_idle(held, b, keys, n);
    lemma_upto_no_idle(taken, b, keys, n);
    assert forall|account: Pubkey|
        holders_at(left, account) == holders_at(held, account) && (#[trigger] left.contains_key(
            account,
        ) <==> held.contains_key(account)) by {
        let l = holders_at(left, account);
        let h = holders_at(held, account);
        assert forall|key: u64| #[trigger] l.contains_key(key) <==> h.contains_key(key) by {
            lemma_acquire_at(held, b, keys, n, account, key);
            lemma_release_at(taken, b, keys, n, account, key);
            if touched(b, keys, n, account, key) {
                let locks = b.locks(key);
                let i = choose|i: int| 0 <= i < locks.len() && (#[trigger] locks[i]).0 == account;
                let j = choose|j: int|
                    0 <= j < n && #[trigger] keys[j] == key && mentions(b.locks(key), account);
                assert(holds_nothing(held, keys[j], b.locks(keys[j])));
                assert(!holders_at(held, locks[i].0).contains_key(key));
            }
        }
        assert forall|key: u64| h.contains_key(key) implies l[key] == #[trigger] h[key] by {
            lemma_acquire_at(held, b, keys, n, account, key);
            lemma_release_at(taken, b, keys, n, account, key);
            assert(l.contains_key(key));
        }
        assert(l =~= h);
    }
    assert forall|account: Pubkey| #[trigger] left.contains_key(account) implies left[account]
        == held[account] by {
        assert(holders_at(left, account) == holders_at(held, account));
    }
    assert(left =~= held);
}

/// A bundle is sent whole: one message, with all of its transactions in order,
/// to be executed all or not at all, its cost counted once.
pub proof fn lemma_bundle_sent_whole(a: AuctionWorld, budget: u64, worker: usize)
    requires
        a.w.s.bundles.len() > 0,
        a.try_bundle(budget, worker).2.len() > 0,
    ensures
        ({
            let bundle = a.w.s.bundles.last();
            let (next, left, batch) = a.try_bundle(budget, worker);
            &&& batch.len() == bundle.keys.len()
            &&& forall|i: int| 0 <= i < batch.len() ==> (#[trigger] batch[i]).key == bundle.keys[i]
                && batch[i].meta.priority == BUNDLE_MARKER
            &&& message_cost(batch, batch.len() as int) == bundle.cost
            &&& left == budget - bundle.cost
            &&& next.w.b.actions[a.w.b.actions.len() as int] == (ActionModel::Schedule {
                batch: BatchModel {
                    worker,
                    transactions: batch,
                    max_working_slot: (a.w.b.progress.current_slot + 1) as u64,
                    flags: EXECUTE_BUNDLE_FLAGS,
                },
            })
        }),
{
    let bundle = a.w.s.bundles.last();
    let n = bundle.keys.len() as int;
    lemma_bundle_message_cost(bundle.keys, bundle.cost, n);
    let message = BatchModel {
        worker,
        transactions: bundle_message(bundle.keys, bundle.cost),
        max_working_slot: (a.w.b.progress.current_slot + 1) as u64,
        flags: EXECUTE_BUNDLE_FLAGS,
    };
    lemma_dequeue_extends(World { b: a.w.b.scheduled(message), ..a.w }, bundle.keys, n);
}

proof fn lemma_dequeue_extends(w: World, keys: Seq<u64>, n: int)
    ensures
        w.dequeue_upto(keys, n).s == w.s,
        w.dequeue_upto(keys, n).b.progress == w.b.progress,
        w.dequeue_upto(keys, n).b.actions.len() >= w.b.actions.len(),
        forall|i: int|
            0 <= i < w.b.actions.len() ==> #[trigger] w.dequeue_upto(keys, n).b.actions[i]
                == w.b.actions[i],
    decreases n,
{
    if n > 0 {
        lemma_dequeue_extends(w, keys, n - 1);
    }
}

/// Where there is no room, a transaction finds a place only by being of higher
/// priority than the lowest that waits, which it replaces.
pub proof fn lemma_place_by_priority(w: World, meta: PriorityId)
    requires
        w.s.pending() >= w.s.checked_capacity,
        w.s.checked.len() > 0,
    ensures
        w.insert_with_capacity(meta).1 == TxDecision::Keep <==> meta.priority
            > w.s.checked.first().priority,
        w.insert_with_capacity(meta).1 == TxDecision::Drop
            ==> w.insert_with_capacity(meta).0.s.checked == w.s.checked,
{
}

/// As long as something can make room, no more transactions wait, execute or
/// are deferred than there is capacity for.
pub proof fn lemma_capacity_kept(w: World, meta: PriorityId)
    requires
        increasing::<PriorityId>(w.s.checked),
        w.s.pending() <= w.s.checked_capacity,
        w.s.pending() < w.s.checked_capacity || w.s.checked.len() > 0,
    ensures
        w.insert_with_capacity(meta).0.s.pending() <= w.s.checked_capacity,
{
    lemma_with_item::<PriorityId>(w.s.checked, meta);
    if w.s.checked.len() > 0 {
        crate::ordered::lemma_increasing_subrange::<PriorityId>(
            w.s.checked,
            1,
            w.s.checked.len() as int,
        );
        lemma_with_item::<PriorityId>(w.s.checked.drop_first(), meta);
    }
}

/// What is started fits the budget.
proof fn lemma_best_fits(a: AuctionWorld, budget: u64, worker: usize)
    ensures
        ({
            let (next, left, batch) = a.try_transactions(budget, worker);
            &&& left + message_cost(batch, batch.len() as int) == budget
            &&& 0 <= message_cost(batch, batch.len() as int)
            &&& next.w.s.in_flight_cus == a.w.s.in_flight_cus
            &&& steady_core(a.w.s, next.w.s)
            &&& next.w.b.progress == a.w.b.progress
        }),
        ({
            let (next, left, batch) = a.try_bundle(budget, worker);
            &&& left + message_cost(batch, batch.len() as int) <= budget
            &&& 0 <= message_cost(batch, batch.len() as int)
            &&& next.w.s.in_flight_cus == a.w.s.in_flight_cus
            &&& steady_core(a.w.s, next.w.s)
            &&& next.w.b.progress == a.w.b.progress
        }),
{
    let checked = a.w.s.checked;
    let n = if checked.len() < SEARCH_LIMIT {
        checked.len() as int
    } else {
        SEARCH_LIMIT as int
    };
    lemma_pick_cost(a.held, a.w.b, checked, budget, n);
    let p = pick_upto(a.held, a.w.b, checked, budget, n);
    let message = BatchModel {
        worker,
        transactions: picked_message(p.picked),
        max_working_slot: (a.w.b.progress.current_slot + 1) as u64,
        flags: crate::bridge::EXECUTE_FLAGS,
    };
    lemma_remove_checked_steady(
        World { b: a.w.b.scheduled(message), ..a.w },
        p.picked,
        p.picked.len() as int,
    );
    let batch = a.try_transactions(budget, worker).2;
    lemma_message_cost_monotone(batch, 0, batch.len() as int);
    let sent = a.try_bundle(budget, worker).2;
    lemma_message_cost_monotone(sent, 0, sent.len() as int);
    if a.w.s.bundles.len() > 0 {
        let bundle = a.w.s.bundles.last();
        let m = bundle.keys.len() as int;
        if m > 0 {
            lemma_bundle_message_cost(bundle.keys, bundle.cost, m);
        }
        lemma_dequeue_extends(
            World {
                b: a.w.b.scheduled(
                    BatchModel {
                        worker,
                        transactions: bundle_message(bundle.keys, bundle.cost),
                        max_working_slot: (a.w.b.progress.current_slot + 1) as u64,
                        flags: EXECUTE_BUNDLE_FLAGS,
                    },
                ),
                ..a.w
            },
            bundle.keys,
            m,
        );
    }
}

proof fn lemma_either_fits(a: AuctionWorld, budget: u64, worker: usize)
    ensures
        ({
            let (next, left, batch) = a.try_best(budget, worker);
            &&& left + message_cost(batch, batch.len() as int) <= budget
            &&& 0 <= message_cost(batch, batch.len() as int)
            &&& next.w.s.in_flight_cus == a.w.s.in_flight_cus
            &&& steady_core(a.w.s, next.w.s)
            &&& next.w.b.progress == a.w.b.progress
        }),
{
    lemma_best_fits(a, budget, worker);
    lemma_best_fits(a.try_transactions(budget, worker).0, budget, worker);
    lemma_best_fits(a.try_bundle(budget, worker).0, budget, worker);
}

/// Giving work to workers keeps configuration, slot and progress.
pub proof fn lemma_execute_steady(a: AuctionWorld, budget: u64, worker: int, n: int)
    ensures
        steady_core(a.w.s, a.execute_from(budget, worker, n).w.s),
        a.execute_from(budget, worker, n).w.b.progress == a.w.b.progress,
    decreases n - worker,
{
    if worker < n && budget > 0 {
        if a.w.b.workers[worker].len != 0 {
            lemma_execute_steady(a, budget, worker + 1, n);
        } else {
            let (next, left, batch) = a.try_best(budget, worker as usize);
            lemma_either_fits(a, budget, worker as usize);
            if batch.len() > 0 {
                lemma_mark_executing_steady(next.w, batch, batch.len() as int);
                let started = AuctionWorld { w: next.w.start_batch(batch), ..next };
                lemma_execute_steady(started, left, worker + 1, n);
            }
        }
    }
}

/// Giving work to workers adds no more to what is in flight than the budget.
pub proof fn lemma_execute_within_budget(a: AuctionWorld, budget: u64, worker: int, n: int)
    requires
        a.w.s.in_flight_cus + budget <= u64::MAX,
    ensures
        a.w.s.in_flight_cus <= a.execute_from(budget, worker, n).w.s.in_flight_cus,
        a.execute_from(budget, worker, n).w.s.in_flight_cus <= a.w.s.in_flight_cus + budget,
    decreases n - worker,
{
    if worker < n && budget > 0 {
        if a.w.b.workers[worker].len != 0 {
            lemma_execute_within_budget(a, budget, worker + 1, n);
        } else {
            let (next, left, batch) = a.try_best(budget, worker as usize);
            lemma_either_fits(a, budget, worker as usize);
            if batch.len() > 0 {
                lemma_start_adds_cost(next.w, batch, batch.len() as int);
                let started = AuctionWorld { w: next.w.start_batch(batch), ..next };
                lemma_execute_within_budget(started, left, worker + 1, n);
            }
        }
    }
}

/// Together with what the block holds, what is in flight stays within the part
/// of the block that may be filled by now, unless it was beyond that before.
pub proof fn lemma_block_not_overfilled(a: AuctionWorld)
    requires
        a.w.s.in_flight_cus <= MAX_BLOCK_UNITS,
    ensures
        ({
            let progress = a.w.b.progress;
            let used = floored(MAX_BLOCK_UNITS as int, progress.remaining_cost_units as int);
            let limit = MAX_BLOCK_UNITS * fill_percentage(
                progress,
                a.w.s.runtime.block_fill_cutoff,
            ) / 100;
            let after = a.schedule_execute().w.s.in_flight_cus;
            after == a.w.s.in_flight_cus || used + after <= limit
        }),
        a.schedule_execute().w.s.in_flight_cus <= MAX_BLOCK_UNITS,
{
    let progress = a.w.b.progress;
    let cutoff = a.w.s.runtime.block_fill_cutoff;
    let budget = budget_of(progress, cutoff, a.w.s.in_flight_cus);
    crate::worker::lemma_budget_bound(progress, cutoff, a.w.s.in_flight_cus);
    lemma_execute_within_budget(
        a,
        budget as u64,
        EXECUTE_WORKER_START as int,
        a.w.b.workers.len() as int,
    );
}

/// In a slot in which the validator was seen to become leader, it is not seen
/// to become leader again.
pub proof fn lemma_leader_ready_once_per_slot(
    a: AuctionWorld,
    first: PollModel,
    tpu_scores: Seq<u64>,
    update_scores: Seq<Seq<u64>>,
    second: PollModel,
)
    requires
        a.w.note_progress(first.progress, first.now).becomes_leader(),
        second.progress matches Some(progress) ==> progress.current_slot == a.w.note_progress(
            first.progress,
            first.now,
        ).b.progress.current_slot,
    ensures
        a.poll(first, tpu_scores, update_scores).w.s.stats.was_leader_ready,
        ({
            let after = a.poll(first, tpu_scores, update_scores);
            after.check_slot_roll(second.progress, second.now).w
                == after.w.note_progress_or_starve(second.progress, second.now)
        }),
{
    let now = first.now;
    let noted = a.w.note_progress_or_starve(first.progress, now);
    lemma_auction_roll_steady(a, first.progress, now);
    lemma_roll_slot(noted);
    let rolled = a.check_slot_roll(first.progress, now);
    assert(rolled.w.s.stats.was_leader_ready);
    let n = first.responses.len() as int;
    lemma_auction_responses_steady(rolled, first.responses, n);
    let answered = rolled.on_responses(first.responses, n);
    let limit: int = round_limit(answered.is_leader());
    lemma_auction_drain_tpu_steady(answered, first.tpu, tpu_scores, limit);
    let drained = answered.drain_tpu(first.tpu, tpu_scores, limit);
    lemma_drop_expired_steady(drained.w, now);
    let fresh = AuctionWorld { w: drained.w.drop_expired_bundles(now), ..drained };
    let m = first.updates.len() as int;
    lemma_auction_updates_steady(fresh, first.updates, update_scores, now, m);
    let taken = fresh.on_updates(first.updates, update_scores, now, m);
    lemma_schedule_checks_steady(taken.w);
    let checks = AuctionWorld { w: taken.w.schedule_checks(), ..taken };
    lemma_execute_steady(
        checks,
        budget_of(
            checks.w.b.progress,
            checks.w.s.runtime.block_fill_cutoff,
            checks.w.s.in_flight_cus,
        ) as u64,
        EXECUTE_WORKER_START as int,
        checks.w.b.workers.len() as int,
    );
    let after = a.poll(first, tpu_scores, update_scores).w;
    assert(after.s.slot == noted.b.progress.current_slot);
    lemma_leader_seen_once(after, second.progress, second.now);
}

} // verus!
