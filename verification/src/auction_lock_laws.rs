//! In the auction too, locks are held by what executes, and by nothing else.

use vstd::prelude::*;

use crate::auction_engine::{
    acquired, acquired_upto, grants, holders_at, no_idle_entry, released, released_upto, Holders,
};
use crate::auction_laws::lemma_prefix_granted;
use crate::auction_model::{
    acquire_upto, auction_priority_of, bid_values, capped_score, granted_prefix, pick_upto,
    release_upto, rolled_back, AuctionWorld, SEARCH_LIMIT,
};
use crate::bridge::{
    BatchModel, BridgeModel, KeyedTransactionMeta, ProgressMessage, EXECUTE_BUNDLE_FLAGS,
    EXECUTE_FLAGS, EXECUTE_WORKER_START,
};
use crate::jito::UpdateModel;
use crate::lifecycle::{
    bundle_keys, checked_keys, distinct_checked, held, lemma_drop_expired, lemma_inserted,
    lemma_make_room, lemma_roll_slot, lemma_same_places, lemma_schedule_checks,
    lemma_stop_executing, loose, message_keys, orderly,
};
use crate::lifecycle_laws::{
    answers, lemma_auction_best, lemma_auction_bundle, lemma_auction_response, lemma_auction_roll,
    lemma_auction_tips, lemma_auction_tpu, lemma_auction_transactions, lemma_auction_update,
    lemma_bundle_message_keys, lemma_freed_started, lemma_picked_distinct,
};
use crate::lock_laws::{
    lemma_checked_running, lemma_inserted_stable, lemma_mark_executes, lemma_received_stable,
    lemma_scan_bundle_stable, lemma_stable_running, lemma_still_stable, same_lookups, same_running,
    stable,
};
use crate::pubkey::Pubkey;
use crate::queues::with_executing;
use crate::scheduler_model::{CoreModel, World};
use crate::shared::{BundleModel, PriorityId};
use crate::still::{
    lemma_auction_check_still, lemma_drop_expired_still, lemma_executed_still,
    lemma_insert_with_capacity_still, lemma_make_room_still, lemma_roll_still,
    lemma_schedule_checks_still, lemma_still_chain, lemma_store_bundle_still, still,
};
use crate::worker::{budget_of, round_limit, PollModel, ResponseModel};

verus! {

/// How the first `n` locks hold an account: as the last of them that names it
/// says.
pub open spec fn flag_upto(locks: Seq<(Pubkey, bool)>, account: Pubkey, n: int) -> Option<bool>
    decreases n,
{
    if n <= 0 {
        None
    } else if locks[n - 1].0 == account {
        Some(locks[n - 1].1)
    } else {
        flag_upto(locks, account, n - 1)
    }
}

/// How a transaction's locks hold an account.
pub open spec fn flag(b: BridgeModel, key: u64, account: Pubkey) -> Option<bool> {
    flag_upto(b.locks(key), account, b.locks(key).len() as int)
}

/// Each account is held exactly by the executing transactions that name it, as
/// they do.
#[verifier::opaque]
pub open spec fn exact_holders(a: AuctionWorld) -> bool {
    &&& no_idle_entry(a.held)
    &&& forall|account: Pubkey, key: u64| #[trigger]
        holders_at(a.held, account).contains_key(key) <==> a.w.s.executing.contains_key(key) && flag(
            a.w.b,
            key,
            account,
        ) is Some
    &&& forall|account: Pubkey, key: u64| #[trigger]
        holders_at(a.held, account).contains_key(key) ==> Some(
            holders_at(a.held, account)[key],
        ) == flag(a.w.b, key, account)
}

proof fn lemma_same_running_exact(a: AuctionWorld, b: AuctionWorld)
    requires
        exact_holders(a),
        same_running(a.w, b.w),
        b.held == a.held,
    ensures
        exact_holders(b),
{
    reveal(exact_holders);
    assert forall|key: u64| #[trigger] b.w.s.executing.contains_key(
        key,
    ) <==> a.w.s.executing.contains_key(key) by {
        assert(b.w.s.executing.dom().contains(key) <==> a.w.s.executing.dom().contains(key));
    }
    assert forall|account: Pubkey, key: u64| #[trigger]
        holders_at(b.held, account).contains_key(key) <==> b.w.s.executing.contains_key(key) && flag(
            b.w.b,
            key,
            account,
        ) is Some by {
        assert(holders_at(a.held, account).contains_key(key) <==> a.w.s.executing.contains_key(key)
            && flag(a.w.b, key, account) is Some);
    }
}

pub(crate) proof fn lemma_stable_exact(a: AuctionWorld, b: AuctionWorld)
    requires
        exact_holders(a),
        stable(a.w, b.w),
        orderly(a.w),
        orderly(b.w),
        b.held == a.held,
    ensures
        exact_holders(b),
{
    lemma_stable_running(a.w, b.w);
    lemma_same_running_exact(a, b);
}

/// Who holds an account after a transaction took the first `n` locks.
proof fn lemma_acquired_holders(
    table: Holders,
    key: u64,
    locks: Seq<(Pubkey, bool)>,
    n: int,
    account: Pubkey,
)
    requires
        0 <= n <= locks.len(),
    ensures
        holders_at(acquired_upto(table, key, locks, n), account) == match flag_upto(
            locks,
            account,
            n,
        ) {
            Some(writable) => holders_at(table, account).insert(key, writable),
            None => holders_at(table, account),
        },
    decreases n,
{
    if n > 0 {
        lemma_acquired_holders(table, key, locks, n - 1, account);
        let before = holders_at(acquired_upto(table, key, locks, n - 1), account);
        if locks[n - 1].0 == account {
            assert(before.insert(key, locks[n - 1].1) =~= holders_at(table, account).insert(
                key,
                locks[n - 1].1,
            ));
        }
    }
}

/// Who holds an account after a transaction gave up the first `n` locks.
proof fn lemma_released_holders(
    table: Holders,
    key: u64,
    locks: Seq<(Pubkey, bool)>,
    n: int,
    account: Pubkey,
)
    requires
        0 <= n <= locks.len(),
    ensures
        holders_at(released_upto(table, key, locks, n), account) == match flag_upto(
            locks,
            account,
            n,
        ) {
            Some(_) => holders_at(table, account).remove(key),
            None => holders_at(table, account),
        },
    decreases n,
{
    if n > 0 {
        lemma_released_holders(table, key, locks, n - 1, account);
        let before = holders_at(released_upto(table, key, locks, n - 1), account);
        if locks[n - 1].0 == account {
            assert(before.remove(key) =~= holders_at(table, account).remove(key));
        }
    }
}

proof fn lemma_no_idle(table: Holders, key: u64, locks: Seq<(Pubkey, bool)>, n: int)
    requires
        no_idle_entry(table),
        0 <= n <= locks.len(),
    ensures
        no_idle_entry(acquired_upto(table, key, locks, n)),
        no_idle_entry(released_upto(table, key, locks, n)),
    decreases n,
{
    if n > 0 {
        lemma_no_idle(table, key, locks, n - 1);
        let before = acquired_upto(table, key, locks, n - 1);
        let taken = holders_at(before, locks[n - 1].0).insert(key, locks[n - 1].1);
        assert(taken.contains_key(key));
        assert(taken != Map::<u64, bool>::empty());
    }
}

/// A transaction takes its locks and executes.
proof fn lemma_acquire_exact(a: AuctionWorld, key: u64, b: AuctionWorld)
    requires
        exact_holders(a),
        !a.w.s.executing.contains_key(key),
        b.w.s.executing.dom() == a.w.s.executing.dom().insert(key),
        forall|k: u64| #[trigger] b.w.s.executing.contains_key(k) ==> b.w.b.locks(k) == a.w.b.locks(k),
        b.held == acquired(a.held, key, a.w.b.locks(key)),
    ensures
        exact_holders(b),
{
    reveal(exact_holders);
    let locks = a.w.b.locks(key);
    let n = locks.len() as int;
    lemma_no_idle(a.held, key, locks, n);
    assert forall|k: u64| #[trigger] b.w.s.executing.contains_key(k) <==> a.w.s.executing.contains_key(
        k,
    ) || k == key by {
        assert(b.w.s.executing.dom().contains(k) <==> a.w.s.executing.dom().insert(key).contains(k));
    }
    assert forall|account: Pubkey, k: u64| #[trigger]
        holders_at(b.held, account).contains_key(k) <==> b.w.s.executing.contains_key(k) && flag(
            b.w.b,
            k,
            account,
        ) is Some by {
        lemma_acquired_holders(a.held, key, locks, n, account);
        assert(holders_at(a.held, account).contains_key(k) <==> a.w.s.executing.contains_key(k)
            && flag(a.w.b, k, account) is Some);
    }
    assert forall|account: Pubkey, k: u64| #[trigger]
        holders_at(b.held, account).contains_key(k) implies Some(holders_at(b.held, account)[k])
        == flag(b.w.b, k, account) by {
        lemma_acquired_holders(a.held, key, locks, n, account);
        if k != key {
            assert(holders_at(a.held, account).contains_key(k));
        }
    }
}

/// A transaction gives up its locks and no longer executes.
proof fn lemma_release_exact(a: AuctionWorld, key: u64, b: AuctionWorld)
    requires
        exact_holders(a),
        a.w.s.executing.contains_key(key),
        b.w.s.executing.dom() == a.w.s.executing.dom().remove(key),
        forall|k: u64| #[trigger] b.w.s.executing.contains_key(k) ==> b.w.b.locks(k) == a.w.b.locks(k),
        b.held == released(a.held, key, a.w.b.locks(key)),
    ensures
        exact_holders(b),
{
    reveal(exact_holders);
    let locks = a.w.b.locks(key);
    let n = locks.len() as int;
    lemma_no_idle(a.held, key, locks, n);
    assert forall|k: u64| #[trigger] b.w.s.executing.contains_key(k) <==> a.w.s.executing.contains_key(
        k,
    ) && k != key by {
        assert(b.w.s.executing.dom().contains(k) <==> a.w.s.executing.dom().remove(key).contains(k));
    }
    assert forall|account: Pubkey, k: u64| #[trigger]
        holders_at(b.held, account).contains_key(k) <==> b.w.s.executing.contains_key(k) && flag(
            b.w.b,
            k,
            account,
        ) is Some by {
        lemma_released_holders(a.held, key, locks, n, account);
        assert(holders_at(a.held, account).contains_key(k) <==> a.w.s.executing.contains_key(k)
            && flag(a.w.b, k, account) is Some);
    }
    assert forall|account: Pubkey, k: u64| #[trigger]
        holders_at(b.held, account).contains_key(k) implies Some(holders_at(b.held, account)[k])
        == flag(b.w.b, k, account) by {
        lemma_released_holders(a.held, key, locks, n, account);
        assert(holders_at(a.held, account).contains_key(k));
    }
}

proof fn lemma_auction_tips_exact(a: AuctionWorld)
    requires
        orderly(a.w),
        exact_holders(a),
    ensures
        exact_holders(a.become_tip_receiver()),
{
    lemma_auction_tips(a);
    if let Some((init, change)) = a.w.s.tip_packets() {
        let after = a.submit_tips(init, change);
        lemma_inserted(a.w, init);
        lemma_inserted_stable(a.w, init);
        if let (first, Some(init_key)) = a.w.b.inserted(init) {
            let one = World { b: first, ..a.w };
            lemma_inserted(one, change);
            lemma_inserted_stable(one, change);
            match first.inserted(change) {
                (second, Some(change_key)) => {
                    let two = AuctionWorld { w: World { b: second, ..a.w }, ..a };
                    assert(stable(a.w, two.w)) by {
                        assert forall|key: u64| #[trigger]
                            second.transactions.contains_key(key) && a.w.b.transactions.contains_key(
                                key,
                            ) implies second.transactions[key] == a.w.b.transactions[key] by {
                            assert(first.transactions.contains_key(key));
                        }
                    }
                    lemma_stable_exact(a, two);
                    assert(loose(two.w).contains(init_key) && loose(two.w).contains(change_key));
                    if two.can_lock(init_key) {
                        let half = AuctionWorld {
                            w: World {
                                s: CoreModel {
                                    executing: with_executing(two.w.s.executing, init_key, 0),
                                    ..two.w.s
                                },
                                ..two.w
                            },
                            held: acquired(two.held, init_key, two.w.b.locks(init_key)),
                            ..two
                        };
                        assert(half.w.s.executing.dom() =~= two.w.s.executing.dom().insert(
                            init_key,
                        ));
                        lemma_acquire_exact(two, init_key, half);
                        assert(after.w.s.executing.dom() =~= half.w.s.executing.dom().insert(
                            change_key,
                        ));
                        lemma_acquire_exact(half, change_key, after);
                    } else {
                        assert(still(two.w, after.w));
                        lemma_still_stable(a.w, two.w, after.w);
                        lemma_stable_exact(a, after);
                    }
                },
                (second, None) => {
                    assert(still(one, after.w));
                    lemma_still_stable(a.w, one, after.w);
                    lemma_stable_exact(a, after);
                },
            }
        }
    }
}

proof fn lemma_auction_roll_exact(a: AuctionWorld, update: Option<ProgressMessage>, now: u64)
    requires
        orderly(a.w),
        exact_holders(a),
    ensures
        exact_holders(a.check_slot_roll(update, now)),
{
    let noted = a.w.note_progress_or_starve(update, now);
    lemma_same_places(a.w, noted);
    assert(still(a.w, noted));
    lemma_roll_slot(noted);
    lemma_roll_still(noted);
    let rolled = noted.roll_slot();
    lemma_still_chain(a.w, noted, rolled);
    lemma_stable_exact(a, AuctionWorld { w: rolled, ..a });
    if noted.becomes_leader() {
        let led = rolled.report_leader();
        lemma_same_places(rolled, led);
        assert(still(rolled, led));
        lemma_stable_exact(AuctionWorld { w: rolled, ..a }, AuctionWorld { w: led, ..a });
        lemma_auction_tips_exact(AuctionWorld { w: led, ..a });
    }
}

proof fn lemma_auction_response_exact(a: AuctionWorld, meta: PriorityId, response: ResponseModel)
    requires
        orderly(a.w),
        exact_holders(a),
        answers(a.w, meta, response),
        same_lookups(a.w, meta, response),
    ensures
        exact_holders(a.on_response(meta, response)),
{
    lemma_auction_response(a, meta, response);
    reveal(AuctionWorld::on_response);
    let key = meta.key;
    let after = a.on_response(meta, response);
    if a.w.b.transactions.contains_key(key) {
        let stopped = AuctionWorld {
            w: a.w.stop_executing(key),
            held: released(a.held, key, a.w.b.locks(key)),
            ..a
        };
        if a.w.s.executing.contains_key(key) {
            assert(stopped.w.s.executing.dom() =~= a.w.s.executing.dom().remove(key));
            lemma_release_exact(a, key, stopped);
            lemma_stop_executing(a.w, key);
        }
        match response {
            ResponseModel::Unprocessed => {
                if a.w.s.executing.contains_key(key) {
                    assert(still(stopped.w, a.w.unprocessed(meta).0));
                    assert(still(stopped.w, after.w));
                    lemma_stable_exact(stopped, after);
                }
            },
            ResponseModel::Execute(rep) => {
                if a.w.s.executing.contains_key(key) {
                    lemma_executed_still(a.w, meta, rep);
                    let executed = a.w.executed(meta, rep).0;
                    assert(still(executed, executed.drop_tx(key)));
                    lemma_still_chain(stopped.w, executed, executed.drop_tx(key));
                    lemma_stable_exact(stopped, after);
                }
            },
            ResponseModel::Check(rep, keys) => {
                lemma_auction_check_still(a, meta, rep, keys);
                let checked = a.on_check(meta, rep, keys).0;
                lemma_checked_running(a.w, checked.w, meta, rep, keys, after.w);
                lemma_same_running_exact(a, after);
            },
        }
    }
}

proof fn lemma_auction_responses_exact(
    a: AuctionWorld,
    responses: Seq<(PriorityId, ResponseModel)>,
    n: int,
)
    requires
        orderly(a.w),
        exact_holders(a),
        0 <= n <= responses.len(),
        forall|i: int|
            0 <= i < n ==> {
                let before = (#[trigger] a.on_responses(responses, i)).w;
                answers(before, responses[i].0, responses[i].1) && same_lookups(
                    before,
                    responses[i].0,
                    responses[i].1,
                )
            },
    ensures
        exact_holders(a.on_responses(responses, n)),
        orderly(a.on_responses(responses, n).w),
    decreases n,
{
    if n > 0 {
        lemma_auction_responses_exact(a, responses, n - 1);
        let before = a.on_responses(responses, n - 1);
        assert(answers(before.w, responses[n - 1].0, responses[n - 1].1));
        lemma_auction_response_exact(before, responses[n - 1].0, responses[n - 1].1);
        lemma_auction_response(before, responses[n - 1].0, responses[n - 1].1);
    }
}

proof fn lemma_auction_tpu_exact(a: AuctionWorld, packet: Seq<u8>, simple_vote: bool, score: u64)
    requires
        orderly(a.w),
        exact_holders(a),
    ensures
        exact_holders(a.on_tpu(packet, simple_vote, score)),
{
    lemma_auction_tpu(a, packet, simple_vote, score);
    reveal(AuctionWorld::on_tpu);
    lemma_received_stable(a.w, packet, simple_vote);
    let after = a.on_tpu(packet, simple_vote, score);
    if let (received, Some(key)) = a.w.b.received(packet, simple_vote) {
        let taken = AuctionWorld { w: World { b: received, ..a.w }, ..a };
        let priority = auction_priority_of(a.w.b.runtime, packet, score, a.min_score);
        let next = taken.admit_tpu(key, priority).0;
        if let Some((priority, cost)) = priority {
            let id = PriorityId { priority, cost, key };
            lemma_insert_with_capacity_still(taken.w, id);
            let placed = taken.w.insert_with_capacity(id).0;
            assert(still(placed, placed.report_tpu(id)));
            lemma_still_chain(taken.w, placed, placed.report_tpu(id));
        }
        assert(still(taken.w, next.w));
        assert(still(next.w, next.w.drop_tx(key)));
        lemma_still_chain(taken.w, next.w, next.w.drop_tx(key));
        lemma_still_stable(a.w, taken.w, after.w);
    }
    lemma_stable_exact(a, after);
}

proof fn lemma_auction_tpu_upto_exact(
    a: AuctionWorld,
    tpu: Seq<(Seq<u8>, bool)>,
    scores: Seq<u64>,
    n: int,
)
    requires
        orderly(a.w),
        exact_holders(a),
    ensures
        exact_holders(a.on_tpu_upto(tpu, scores, n)),
        orderly(a.on_tpu_upto(tpu, scores, n).w),
    decreases n,
{
    if n > 0 {
        lemma_auction_tpu_upto_exact(a, tpu, scores, n - 1);
        let before = a.on_tpu_upto(tpu, scores, n - 1);
        lemma_auction_tpu_exact(before, tpu[n - 1].0, tpu[n - 1].1, scores[n - 1]);
        lemma_auction_tpu(before, tpu[n - 1].0, tpu[n - 1].1, scores[n - 1]);
    }
}

proof fn lemma_auction_packet_stable(a: AuctionWorld, packet: Seq<u8>, score: u64)
    requires
        orderly(a.w),
    ensures
        stable(a.w, a.on_packet(packet, score).w),
{
    lemma_inserted_stable(a.w, packet);
    let after = a.on_packet(packet, score).w;
    if let (inserted, Some(key)) = a.w.b.inserted(packet) {
        let taken = World { b: inserted, ..a.w };
        let evicted = taken.evict_unchecked();
        assert(still(taken, evicted));
        if let Some((priority, cost)) = auction_priority_of(a.w.b.runtime, packet, score, a.min_score) {
            let id = PriorityId { priority, cost, key };
            lemma_insert_with_capacity_still(taken, id);
            let placed = taken.insert_with_capacity(id).0;
            assert(still(placed, placed.report_packet(id)));
            assert(still(placed, placed.report_packet(id).drop_tx(key)));
            lemma_still_chain(taken, placed, placed.report_packet(id));
            lemma_still_chain(taken, placed, placed.report_packet(id).drop_tx(key));
        }
        assert(still(taken, after) || still(evicted, after));
        if still(evicted, after) {
            lemma_still_chain(taken, evicted, after);
        }
        lemma_still_stable(a.w, taken, after);
    }
}

proof fn lemma_auction_update_exact(a: AuctionWorld, update: UpdateModel, scores: Seq<u64>, now: u64)
    requires
        orderly(a.w),
        exact_holders(a),
    ensures
        exact_holders(a.on_update(update, scores, now)),
{
    lemma_auction_update(a, update, scores, now);
    reveal(AuctionWorld::on_update);
    let after = a.on_update(update, scores, now);
    match update {
        UpdateModel::Packet(packet) => {
            lemma_auction_packet_stable(a, packet, scores[0]);
        },
        UpdateModel::Bundle(packets) => {
            let values = bid_values(a.w.b.runtime, packets, scores, a.min_score);
            lemma_scan_bundle_stable(a.w, packets, values);
            if let (w, Some((keys, cost, value))) = a.w.scan_bundle(packets, values) {
                lemma_store_bundle_still(
                    w,
                    BundleModel { priority: capped_score(value), cost, received_at: now, keys },
                );
                lemma_still_stable(a.w, w, after.w);
            }
        },
        _ => {},
    }
    lemma_stable_exact(a, after);
}

proof fn lemma_auction_updates_exact(
    a: AuctionWorld,
    updates: Seq<UpdateModel>,
    scores: Seq<Seq<u64>>,
    now: u64,
    n: int,
)
    requires
        orderly(a.w),
        exact_holders(a),
    ensures
        exact_holders(a.on_updates(updates, scores, now, n)),
        orderly(a.on_updates(updates, scores, now, n).w),
    decreases n,
{
    if n > 0 {
        lemma_auction_updates_exact(a, updates, scores, now, n - 1);
        let before = a.on_updates(updates, scores, now, n - 1);
        lemma_auction_update_exact(before, updates[n - 1], scores[n - 1], now);
        lemma_auction_update(before, updates[n - 1], scores[n - 1], now);
    }
}

/// As if some more transactions executed.
pub open spec fn with_running(w: World, more: Set<u64>) -> World {
    World {
        s: CoreModel {
            executing: Map::new(
                |key: u64| w.s.executing.contains_key(key) || more.contains(key),
                |key: u64| 0u64,
            ),
            ..w.s
        },
        ..w
    }
}

proof fn lemma_one_more_running(a: AuctionWorld, more: Set<u64>, key: u64, taken: Holders)
    requires
        exact_holders(AuctionWorld { w: with_running(a.w, more), held: taken, ..a }),
        !a.w.s.executing.contains_key(key),
        !more.contains(key),
    ensures
        exact_holders(
            AuctionWorld {
                w: with_running(a.w, more.insert(key)),
                held: acquired(taken, key, a.w.b.locks(key)),
                ..a
            },
        ),
{
    let before = AuctionWorld { w: with_running(a.w, more), held: taken, ..a };
    let after = AuctionWorld {
        w: with_running(a.w, more.insert(key)),
        held: acquired(taken, key, a.w.b.locks(key)),
        ..a
    };
    assert(after.w.s.executing.dom() =~= before.w.s.executing.dom().insert(key));
    lemma_acquire_exact(before, key, after);
}

proof fn lemma_one_less_running(a: AuctionWorld, more: Set<u64>, key: u64, taken: Holders)
    requires
        exact_holders(AuctionWorld { w: with_running(a.w, more), held: taken, ..a }),
        !a.w.s.executing.contains_key(key),
        more.contains(key),
    ensures
        exact_holders(
            AuctionWorld {
                w: with_running(a.w, more.remove(key)),
                held: released(taken, key, a.w.b.locks(key)),
                ..a
            },
        ),
{
    let before = AuctionWorld { w: with_running(a.w, more), held: taken, ..a };
    let after = AuctionWorld {
        w: with_running(a.w, more.remove(key)),
        held: released(taken, key, a.w.b.locks(key)),
        ..a
    };
    assert(after.w.s.executing.dom() =~= before.w.s.executing.dom().remove(key));
    lemma_release_exact(before, key, after);
}

proof fn lemma_none_more_running(a: AuctionWorld)
    ensures
        exact_holders(a) <==> exact_holders(
            AuctionWorld { w: with_running(a.w, Set::empty()), ..a },
        ),
{
    let same = AuctionWorld { w: with_running(a.w, Set::empty()), ..a };
    assert(same.w.s.executing.dom() =~= a.w.s.executing.dom());
    if exact_holders(a) {
        lemma_same_running_exact(a, same);
    }
    if exact_holders(same) {
        lemma_same_running_exact(same, a);
    }
}

/// The keys of entries.
pub open spec fn entry_keys(picked: Seq<PriorityId>) -> Seq<u64> {
    picked.map_values(|id: PriorityId| id.key)
}

/// What was picked holds its locks, as if it executed.
proof fn lemma_pick_exact(a: AuctionWorld, budget: u64, n: int)
    requires
        orderly(a.w),
        exact_holders(a),
        0 <= n <= a.w.s.checked.len(),
    ensures
        ({
            let p = pick_upto(a.held, a.w.b, a.w.s.checked, budget, n);
            exact_holders(
                AuctionWorld {
                    w: with_running(a.w, entry_keys(p.picked).to_set()),
                    held: p.held,
                    ..a
                },
            )
        }),
    decreases n,
{
    let checked = a.w.s.checked;
    let p = pick_upto(a.held, a.w.b, checked, budget, n);
    if n == 0 {
        assert(entry_keys(p.picked).to_set() =~= Set::empty());
        lemma_none_more_running(a);
    } else {
        lemma_pick_exact(a, budget, n - 1);
        let before = pick_upto(a.held, a.w.b, checked, budget, n - 1);
        let tx = checked[checked.len() - n];
        if p.picked.len() > before.picked.len() {
            let keys = entry_keys(before.picked);
            assert(distinct_checked(checked) && checked_keys(checked).disjoint(
                a.w.s.executing.dom(),
            )) by {
                reveal(orderly);
            }
            assert(!a.w.s.executing.contains_key(tx.key)) by {
                assert(checked_keys(checked).contains(tx.key));
            }
            lemma_picked_distinct(a.held, a.w.b, checked, budget, n);
            assert(!keys.to_set().contains(tx.key)) by {
                if keys.contains(tx.key) {
                    let i = keys.index_of(tx.key);
                    assert(p.picked[i].key == tx.key);
                    assert(p.picked[before.picked.len() as int] == tx);
                }
            }
            lemma_one_more_running(a, keys.to_set(), tx.key, before.held);
            lemma_push_set(keys, tx.key);
            assert(entry_keys(p.picked) =~= keys.push(tx.key));
        }
    }
}

proof fn lemma_push_set(keys: Seq<u64>, key: u64)
    ensures
        keys.push(key).to_set() == keys.to_set().insert(key),
{
    let longer = keys.push(key);
    assert forall|k: u64| longer.contains(k) <==> keys.contains(k) || k == key by {
        if keys.contains(k) {
            let i = keys.index_of(k);
            assert(longer[i] == k);
        }
        assert(longer[keys.len() as int] == key);
    }
    assert(longer.to_set() =~= keys.to_set().insert(key));
}

/// The transactions of a bundle that took their locks hold them, as if they
/// executed.
proof fn lemma_bundle_taken_exact(a: AuctionWorld, keys: Seq<u64>, n: int)
    requires
        exact_holders(a),
        0 <= n <= keys.len(),
        keys.no_duplicates(),
        forall|i: int| 0 <= i < keys.len() ==> !a.w.s.executing.contains_key(#[trigger] keys[i]),
    ensures
        acquire_upto(a.held, a.w.b, keys, n) matches Some(taken) ==> exact_holders(
            AuctionWorld { w: with_running(a.w, keys.take(n).to_set()), held: taken, ..a },
        ),
    decreases n,
{
    if n == 0 {
        assert(keys.take(0).to_set() =~= Set::empty());
        lemma_none_more_running(a);
    } else {
        lemma_bundle_taken_exact(a, keys, n - 1);
        if let Some(before) = acquire_upto(a.held, a.w.b, keys, n - 1) {
            let shorter = keys.take(n - 1);
            assert(!shorter.to_set().contains(keys[n - 1])) by {
                if shorter.contains(keys[n - 1]) {
                    let i = shorter.index_of(keys[n - 1]);
                    assert(keys[i] == keys[n - 1]);
                }
            }
            lemma_one_more_running(a, shorter.to_set(), keys[n - 1], before);
            lemma_push_set(shorter, keys[n - 1]);
            assert(keys.take(n) =~= shorter.push(keys[n - 1]));
        }
    }
}

/// The transactions of a bundle that gave up their locks no longer hold them.
proof fn lemma_bundle_released_exact(
    a: AuctionWorld,
    keys: Seq<u64>,
    n: int,
    m: int,
    taken: Holders,
)
    requires
        0 <= m <= n <= keys.len(),
        keys.no_duplicates(),
        exact_holders(
            AuctionWorld { w: with_running(a.w, keys.take(n).to_set()), held: taken, ..a },
        ),
        forall|i: int| 0 <= i < keys.len() ==> !a.w.s.executing.contains_key(#[trigger] keys[i]),
    ensures
        exact_holders(
            AuctionWorld {
                w: with_running(a.w, keys.subrange(m, n).to_set()),
                held: release_upto(taken, a.w.b, keys, m),
                ..a
            },
        ),
    decreases m,
{
    if m == 0 {
        assert(keys.subrange(0, n) =~= keys.take(n));
    } else {
        lemma_bundle_released_exact(a, keys, n, m - 1, taken);
        let before = keys.subrange(m - 1, n);
        let after = keys.subrange(m, n);
        let key = keys[m - 1];
        assert(before[0] == key);
        assert(before.to_set().contains(key));
        lemma_one_less_running(
            a,
            before.to_set(),
            key,
            release_upto(taken, a.w.b, keys, m - 1),
        );
        assert(after.to_set() =~= before.to_set().remove(key)) by {
            assert forall|k: u64| after.contains(k) <==> before.contains(k) && k != key by {
                if after.contains(k) {
                    let i = after.index_of(k);
                    assert(before[i + 1] == k);
                    assert(keys[m + i] == k);
                }
                if before.contains(k) && k != key {
                    let i = before.index_of(k);
                    assert(after[i - 1] == k);
                }
            }
        }
    }
}

/// A bundle that was tried in vain leaves locks exact.
proof fn lemma_rolled_back_exact(a: AuctionWorld, keys: Seq<u64>)
    requires
        exact_holders(a),
        keys.no_duplicates(),
        forall|i: int| 0 <= i < keys.len() ==> !a.w.s.executing.contains_key(#[trigger] keys[i]),
    ensures
        exact_holders(AuctionWorld { held: rolled_back(a.held, a.w.b, keys), ..a }),
{
    let n = granted_prefix(a.held, a.w.b, keys, keys.len() as int);
    lemma_prefix_granted(a.held, a.w.b, keys, keys.len() as int);
    lemma_bundle_taken_exact(a, keys, n);
    let taken = acquire_upto(a.held, a.w.b, keys, n)->0;
    lemma_bundle_released_exact(a, keys, n, n, taken);
    assert(keys.subrange(n, n).to_set() =~= Set::empty());
    lemma_none_more_running(AuctionWorld { held: rolled_back(a.held, a.w.b, keys), ..a });
}

proof fn lemma_remove_checked_transactions(w: World, txs: Seq<PriorityId>, n: int)
    ensures
        w.remove_checked_upto(txs, n).b.transactions == w.b.transactions,
        w.remove_checked_upto(txs, n).s.executing == w.s.executing,
    decreases n,
{
    if n > 0 {
        lemma_remove_checked_transactions(w, txs, n - 1);
    }
}

proof fn lemma_dequeue_transactions(w: World, keys: Seq<u64>, n: int)
    ensures
        w.dequeue_upto(keys, n).b.transactions == w.b.transactions,
        w.dequeue_upto(keys, n).s == w.s,
    decreases n,
{
    if n > 0 {
        lemma_dequeue_transactions(w, keys, n - 1);
    }
}

/// The transactions of a message hold their locks, and execute.
proof fn lemma_message_exact(a: AuctionWorld, next: AuctionWorld, batch: Seq<KeyedTransactionMeta>)
    requires
        exact_holders(
            AuctionWorld { w: with_running(a.w, message_keys(batch)), held: next.held, ..a },
        ),
        next.w.s.executing == a.w.s.executing,
        next.w.b.transactions == a.w.b.transactions,
    ensures
        exact_holders(AuctionWorld { w: next.w.start_batch(batch), ..next }),
{
    let n = batch.len() as int;
    let running = AuctionWorld {
        w: with_running(a.w, message_keys(batch)),
        held: next.held,
        ..a
    };
    let after = AuctionWorld { w: next.w.start_batch(batch), ..next };
    lemma_mark_executes(next.w, batch, n);
    assert(batch.take(n) =~= batch);
    assert(after.w.s.executing.dom() =~= running.w.s.executing.dom()) by {
        assert forall|key: u64| after.w.s.executing.dom().contains(key)
            <==> running.w.s.executing.dom().contains(key) by {
            assert(next.w.mark_executing_upto(batch, n).s.executing.contains_key(key)
                <==> next.w.s.executing.contains_key(key) || message_keys(batch).contains(key));
        }
    }
    lemma_same_running_exact(running, after);
}

/// What was started, if anything was, holds its locks.
pub open spec fn started_exact(next: AuctionWorld, batch: Seq<KeyedTransactionMeta>) -> bool {
    if batch.len() == 0 {
        exact_holders(next)
    } else {
        exact_holders(AuctionWorld { w: next.w.start_batch(batch), ..next })
    }
}

proof fn lemma_transactions_exact(a: AuctionWorld, budget: u64, worker: usize)
    requires
        orderly(a.w),
        exact_holders(a),
    ensures
        started_exact(a.try_transactions(budget, worker).0, a.try_transactions(budget, worker).2),
{
    let checked = a.w.s.checked;
    let n = if checked.len() < SEARCH_LIMIT {
        checked.len() as int
    } else {
        SEARCH_LIMIT as int
    };
    let p = pick_upto(a.held, a.w.b, checked, budget, n);
    let (next, _, batch) = a.try_transactions(budget, worker);
    if p.picked.len() > 0 {
        lemma_pick_exact(a, budget, n);
        let keys = entry_keys(p.picked);
        assert(message_keys(batch) =~= keys.to_set()) by {
            assert forall|key: u64| message_keys(batch).contains(key) <==> keys.to_set().contains(
                key,
            ) by {
                if keys.contains(key) {
                    let i = keys.index_of(key);
                    assert(batch[i].key == key);
                }
                if message_keys(batch).contains(key) {
                    let i = choose|i: int| 0 <= i < batch.len() && (#[trigger] batch[i]).key == key;
                    assert(keys[i] == key);
                }
            }
        }
        let sent = World {
            b: a.w.b.scheduled(
                BatchModel {
                    worker,
                    transactions: batch,
                    max_working_slot: (a.w.b.progress.current_slot + 1) as u64,
                    flags: EXECUTE_FLAGS,
                },
            ),
            ..a.w
        };
        lemma_remove_checked_transactions(sent, p.picked, p.picked.len() as int);
        lemma_message_exact(a, next, batch);
    }
}

proof fn lemma_bundle_exact(a: AuctionWorld, budget: u64, worker: usize)
    requires
        orderly(a.w),
        exact_holders(a),
    ensures
        started_exact(a.try_bundle(budget, worker).0, a.try_bundle(budget, worker).2),
{
    let bundles = a.w.s.bundles;
    if bundles.len() > 0 {
        let bundle = bundles.last();
        let keys = bundle.keys;
        let n = keys.len() as int;
        let (next, _, batch) = a.try_bundle(budget, worker);
        let last = bundles.len() - 1;
        assert(keys.no_duplicates() && bundle_keys(bundles).disjoint(a.w.s.executing.dom())) by {
            reveal(orderly);
            assert(bundles[last].keys.no_duplicates());
        }
        assert forall|i: int| 0 <= i < keys.len() implies !a.w.s.executing.contains_key(
            #[trigger] keys[i],
        ) by {
            assert(bundles[last].keys.contains(keys[i]));
            assert(bundle_keys(bundles).contains(keys[i]));
        }
        lemma_rolled_back_exact(a, keys);
        lemma_bundle_taken_exact(a, keys, n);
        if !(bundle.cost > budget || !a.can_lock_keys(keys)) {
            if let Some(taken) = acquire_upto(a.held, a.w.b, keys, n) {
                assert(keys.take(n) =~= keys);
                lemma_bundle_message_keys(keys, bundle.cost);
                let sent = World {
                    b: a.w.b.scheduled(
                        BatchModel {
                            worker,
                            transactions: batch,
                            max_working_slot: (a.w.b.progress.current_slot + 1) as u64,
                            flags: EXECUTE_BUNDLE_FLAGS,
                        },
                    ),
                    ..a.w
                };
                lemma_dequeue_transactions(sent, keys, n);
                if batch.len() == 0 {
                    assert(keys.to_set() =~= Set::empty());
                    lemma_none_more_running(a);
                    assert(taken == a.held);
                    lemma_same_running_exact(a, next);
                } else {
                    lemma_message_exact(a, next, batch);
                }
            }
        }
    }
}

pub(crate) proof fn lemma_best_exact(a: AuctionWorld, budget: u64, worker: usize)
    requires
        orderly(a.w),
        exact_holders(a),
    ensures
        started_exact(a.try_best(budget, worker).0, a.try_best(budget, worker).2),
{
    lemma_transactions_exact(a, budget, worker);
    lemma_bundle_exact(a, budget, worker);
    lemma_auction_transactions(a, budget, worker);
    lemma_auction_bundle(a, budget, worker);
    let (bundled, _, batch) = a.try_bundle(budget, worker);
    if batch.len() == 0 {
        lemma_transactions_exact(bundled, budget, worker);
    }
}

proof fn lemma_auction_execute_exact(a: AuctionWorld, budget: u64, worker: int, n: int)
    requires
        orderly(a.w),
        exact_holders(a),
    ensures
        exact_holders(a.execute_from(budget, worker, n)),
    decreases n - worker,
{
    if worker >= n || budget == 0 {
    } else if a.w.b.workers[worker].len != 0 {
        lemma_auction_execute_exact(a, budget, worker + 1, n);
    } else {
        let (next, left, batch) = a.try_best(budget, worker as usize);
        lemma_auction_best(a, budget, worker as usize);
        lemma_best_exact(a, budget, worker as usize);
        if batch.len() > 0 {
            lemma_freed_started(a.w, next.w, batch);
            lemma_auction_execute_exact(
                AuctionWorld { w: next.w.start_batch(batch), ..next },
                left,
                worker + 1,
                n,
            );
        }
    }
}

/// A round of the auction scheduler leaves each account held exactly by the
/// executing transactions that name it.
pub proof fn lemma_auction_round_exact(
    a: AuctionWorld,
    input: PollModel,
    tpu_scores: Seq<u64>,
    update_scores: Seq<Seq<u64>>,
)
    requires
        orderly(a.w),
        exact_holders(a),
        forall|i: int|
            0 <= i < input.responses.len() ==> {
                let before = (#[trigger] a.check_slot_roll(
                    input.progress,
                    input.now,
                ).on_responses(input.responses, i)).w;
                answers(before, input.responses[i].0, input.responses[i].1) && same_lookups(
                    before,
                    input.responses[i].0,
                    input.responses[i].1,
                )
            },
    ensures
        exact_holders(a.poll(input, tpu_scores, update_scores)),
{
    let now = input.now;
    lemma_auction_roll(a, input.progress, now);
    lemma_auction_roll_exact(a, input.progress, now);
    let rolled = a.check_slot_roll(input.progress, now);
    let n = input.responses.len() as int;
    lemma_auction_responses_exact(rolled, input.responses, n);
    let answered = rolled.on_responses(input.responses, n);
    let limit = round_limit(answered.is_leader());
    let additional = if input.tpu.len() < limit {
        input.tpu.len() as int
    } else {
        limit
    };
    let roomy = AuctionWorld { w: answered.w.make_room(additional as nat), ..answered };
    lemma_make_room(answered.w, additional as nat);
    lemma_make_room_still(answered.w, additional as nat);
    lemma_stable_exact(answered, roomy);
    lemma_auction_tpu_upto_exact(roomy, input.tpu, tpu_scores, additional);
    let drained = answered.drain_tpu(input.tpu, tpu_scores, limit);
    let fresh = AuctionWorld { w: drained.w.drop_expired_bundles(now), ..drained };
    lemma_drop_expired(drained.w, now);
    lemma_drop_expired_still(drained.w, now);
    lemma_stable_exact(drained, fresh);
    lemma_auction_updates_exact(
        fresh,
        input.updates,
        update_scores,
        now,
        input.updates.len() as int,
    );
    let taken = a.take_in(input, tpu_scores, update_scores).0;
    let checks = AuctionWorld { w: taken.w.schedule_checks(), ..taken };
    lemma_schedule_checks(taken.w);
    lemma_schedule_checks_still(taken.w);
    lemma_stable_exact(taken, checks);
    if answered.is_leader() {
        let budget = budget_of(
            checks.w.b.progress,
            checks.w.s.runtime.block_fill_cutoff,
            checks.w.s.in_flight_cus,
        ) as u64;
        lemma_auction_execute_exact(
            checks,
            budget,
            EXECUTE_WORKER_START as int,
            checks.w.b.workers.len() as int,
        );
        let executed = checks.schedule_execute();
        lemma_same_running_exact(
            executed,
            AuctionWorld { w: executed.w.start_recheck(), ..executed },
        );
    }
}

/// A scheduler without locks, of which nothing executes, has its locks exact.
pub proof fn lemma_auction_started_exact(a: AuctionWorld)
    requires
        a.held == Map::<Pubkey, Map<u64, bool>>::empty(),
        a.w.s.executing == Map::<u64, u64>::empty(),
    ensures
        exact_holders(a),
{
    reveal(exact_holders);
}

/// Where locks are exact, a transaction whose locks are granted conflicts with
/// nothing that executes.
pub proof fn lemma_granted_conflicts_with_nothing(
    a: AuctionWorld,
    key: u64,
    i: int,
    other: u64,
)
    requires
        exact_holders(a),
        a.can_lock(key),
        0 <= i < a.w.b.locks(key).len(),
        a.w.s.executing.contains_key(other),
    ensures
        flag(a.w.b, other, a.w.b.locks(key)[i].0) != Some(true),
        a.w.b.locks(key)[i].1 ==> flag(a.w.b, other, a.w.b.locks(key)[i].0) is None,
{
    reveal(exact_holders);
    let (account, writable) = a.w.b.locks(key)[i];
    let holders = holders_at(a.held, account);
    assert(grants(holders, writable));
    assert(holders.contains_key(other) <==> flag(a.w.b, other, account) is Some);
}

proof fn lemma_flag_named(locks: Seq<(Pubkey, bool)>, account: Pubkey, n: int, i: int)
    requires
        0 <= i < n <= locks.len(),
        locks[i].0 == account,
    ensures
        flag_upto(locks, account, n) is Some,
    decreases n,
{
    if i < n - 1 {
        lemma_flag_named(locks, account, n - 1, i);
    }
}

/// A transaction that executes holds its locks, so that it can give them up.
pub proof fn lemma_executing_holds_locks(a: AuctionWorld, key: u64)
    requires
        exact_holders(a),
        a.w.s.executing.contains_key(key),
    ensures
        a.holds_locks(key),
{
    reveal(exact_holders);
    let locks = a.w.b.locks(key);
    assert forall|i: int| 0 <= i < locks.len() implies holders_at(
        a.held,
        (#[trigger] locks[i]).0,
    ).contains_key(key) by {
        lemma_flag_named(locks, locks[i].0, locks.len() as int, i);
    }
}

} // verus!
