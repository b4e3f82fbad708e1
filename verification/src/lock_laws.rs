//! Locks are held by what executes, and by nothing else.
//!
//! Over whole rounds: an account is locked exactly for the executing transactions
//! that name it. So what is started conflicts with nothing that executes.

use vstd::prelude::*;

use crate::batch_laws::lemma_started_without_conflict;
use crate::batch_model::{bundle_values, BatchWorld};
use crate::bridge::{BridgeModel, KeyedTransactionMeta, ProgressMessage, EXECUTE_WORKER_START};
use crate::costs::bundle_priority_of;
use crate::jito::UpdateModel;
use crate::lifecycle::{
    distinct_message, held, lemma_drop_expired, lemma_inserted, lemma_make_room, lemma_received,
    lemma_roll_slot, lemma_same_places, lemma_scan, lemma_schedule_checks, lemma_stop_executing,
    live, loose, message_keys, orderly,
};
use crate::lifecycle_laws::{
    answers, lemma_batch_best, lemma_batch_response, lemma_batch_roll, lemma_batch_tips,
    lemma_batch_tpu, lemma_batch_update, lemma_freed_started,
};
use crate::locks::{
    lock_all, lock_upto, lockers_at, no_empty_entry, unlock_all, unlock_upto, LockTable,
    LockersModel,
};
use crate::pubkey::Pubkey;
use crate::queues::{bundle_message, with_executing};
use crate::scheduler_model::{scan_upto, CoreModel, World};
use crate::shared::{BundleModel, PriorityId};
use crate::still::{
    lemma_batch_best_still, lemma_batch_check_still, lemma_drop_expired_still, lemma_executed_still,
    lemma_lock_upto_world, lemma_make_room_still, lemma_roll_still, lemma_schedule_checks_still,
    lemma_still_chain, lemma_store_bundle_still, still, transactions_kept,
};
use crate::transaction::TransactionModel;
use crate::worker::{budget_of, round_limit, CheckResponse, PollModel, ResponseModel};

verus! {

/// A transaction needs an account, for writing or for reading.
pub open spec fn needs(b: BridgeModel, key: u64, account: Pubkey, writable: bool) -> bool {
    b.locks(key).contains((account, writable))
}

/// Each account is locked exactly for the executing transactions that need it.
#[verifier::opaque]
pub open spec fn exact_locks(b: BatchWorld) -> bool {
    &&& no_empty_entry(b.locks)
    &&& forall|account: Pubkey, key: u64| #[trigger]
        lockers_at(b.locks, account).writers.contains(key) <==> b.w.s.executing.contains_key(key)
            && needs(b.w.b, key, account, true)
    &&& forall|account: Pubkey, key: u64| #[trigger]
        lockers_at(b.locks, account).readers.contains(key) <==> b.w.s.executing.contains_key(key)
            && needs(b.w.b, key, account, false)
}

/// What executes is the same, and needs the same locks.
pub open spec fn same_running(a: World, b: World) -> bool {
    &&& b.s.executing.dom() == a.s.executing.dom()
    &&& forall|key: u64| #[trigger]
        a.s.executing.contains_key(key) ==> b.b.locks(key) == a.b.locks(key)
}

proof fn lemma_same_running_exact(a: BatchWorld, b: BatchWorld)
    requires
        exact_locks(a),
        same_running(a.w, b.w),
        b.locks == a.locks,
    ensures
        exact_locks(b),
{
    reveal(exact_locks);
    assert forall|key: u64| #[trigger] b.w.s.executing.contains_key(
        key,
    ) <==> a.w.s.executing.contains_key(key) by {
        assert(b.w.s.executing.dom().contains(key) <==> a.w.s.executing.dom().contains(key));
    }
}

/// Transactions that are there before and after are the same.
pub open spec fn stable(a: World, b: World) -> bool {
    &&& b.s.executing == a.s.executing
    &&& forall|key: u64| #[trigger]
        b.b.transactions.contains_key(key) && a.b.transactions.contains_key(key)
            ==> b.b.transactions[key] == a.b.transactions[key]
}

pub(crate) proof fn lemma_stable_running(a: World, b: World)
    requires
        stable(a, b),
        orderly(a),
        orderly(b),
    ensures
        same_running(a, b),
{
    reveal(orderly);
    assert forall|key: u64| #[trigger] a.s.executing.contains_key(key) implies b.b.locks(key)
        == a.b.locks(key) by {
        assert(held(a.s).contains(key) && held(b.s).contains(key));
        assert(live(a.b).contains(key) && live(b.b).contains(key));
        assert(b.b.transactions.contains_key(key) && a.b.transactions.contains_key(key));
    }
}

proof fn lemma_stable_exact(a: BatchWorld, b: BatchWorld)
    requires
        exact_locks(a),
        stable(a.w, b.w),
        orderly(a.w),
        orderly(b.w),
        b.locks == a.locks,
    ensures
        exact_locks(b),
{
    lemma_stable_running(a.w, b.w);
    lemma_same_running_exact(a, b);
}

/// What the locks are after a transaction took the first `n`.
proof fn lemma_lock_at(
    table: LockTable,
    key: u64,
    locks: Seq<(Pubkey, bool)>,
    n: int,
    account: Pubkey,
    k: u64,
)
    requires
        0 <= n <= locks.len(),
    ensures
        ({
            let after = lockers_at(lock_upto(table, key, locks, n), account);
            let before = lockers_at(table, account);
            &&& after.writers.contains(k) <==> before.writers.contains(k) || (k == key
                && locks.take(n).contains((account, true)))
            &&& after.readers.contains(k) <==> before.readers.contains(k) || (k == key
                && locks.take(n).contains((account, false)))
        }),
    decreases n,
{
    if n > 0 {
        lemma_lock_at(table, key, locks, n - 1, account, k);
        let shorter = locks.take(n - 1);
        let longer = locks.take(n);
        assert(longer =~= shorter.push(locks[n - 1]));
        assert forall|lock: (Pubkey, bool)| #[trigger] longer.contains(lock) <==> shorter.contains(
            lock,
        ) || lock == locks[n - 1] by {
            lemma_push_contains(shorter, locks[n - 1], lock);
        }
    }
}

/// What the locks are after a transaction gave up the first `n`.
proof fn lemma_unlock_at(
    table: LockTable,
    key: u64,
    locks: Seq<(Pubkey, bool)>,
    n: int,
    account: Pubkey,
    k: u64,
)
    requires
        0 <= n <= locks.len(),
    ensures
        ({
            let after = lockers_at(unlock_upto(table, key, locks, n), account);
            let before = lockers_at(table, account);
            &&& after.writers.contains(k) <==> before.writers.contains(k) && !(k == key
                && locks.take(n).contains((account, true)))
            &&& after.readers.contains(k) <==> before.readers.contains(k) && !(k == key
                && locks.take(n).contains((account, false)))
        }),
    decreases n,
{
    if n > 0 {
        lemma_unlock_at(table, key, locks, n - 1, account, k);
        let shorter = locks.take(n - 1);
        let longer = locks.take(n);
        assert(longer =~= shorter.push(locks[n - 1]));
        assert forall|lock: (Pubkey, bool)| #[trigger] longer.contains(lock) <==> shorter.contains(
            lock,
        ) || lock == locks[n - 1] by {
            lemma_push_contains(shorter, locks[n - 1], lock);
        }
    }
}

proof fn lemma_push_contains(locks: Seq<(Pubkey, bool)>, last: (Pubkey, bool), lock: (Pubkey, bool))
    ensures
        locks.push(last).contains(lock) <==> locks.contains(lock) || lock == last,
{
    let longer = locks.push(last);
    if locks.contains(lock) {
        let i = locks.index_of(lock);
        assert(longer[i] == lock);
    }
    if lock == last {
        assert(longer[locks.len() as int] == lock);
    }
    if longer.contains(lock) && lock != last {
        let i = longer.index_of(lock);
        assert(locks[i] == lock);
    }
}

proof fn lemma_no_empty_entry(table: LockTable, key: u64, locks: Seq<(Pubkey, bool)>, n: int)
    requires
        no_empty_entry(table),
        0 <= n <= locks.len(),
    ensures
        no_empty_entry(lock_upto(table, key, locks, n)),
        no_empty_entry(unlock_upto(table, key, locks, n)),
    decreases n,
{
    if n > 0 {
        lemma_no_empty_entry(table, key, locks, n - 1);
        let before = lock_upto(table, key, locks, n - 1);
        let (account, writable) = locks[n - 1];
        let taken = lockers_at(before, account).locked(key, writable);
        assert(taken != LockersModel::none()) by {
            if writable {
                assert(taken.writers.contains(key));
            } else {
                assert(taken.readers.contains(key));
            }
        }
    }
}

/// A transaction takes its locks and executes.
proof fn lemma_lock_exact(a: BatchWorld, key: u64, b: BatchWorld)
    requires
        exact_locks(a),
        !a.w.s.executing.contains_key(key),
        b.w.s.executing.dom() == a.w.s.executing.dom().insert(key),
        forall|k: u64| #[trigger] b.w.s.executing.contains_key(k) ==> b.w.b.locks(k) == a.w.b.locks(k),
        b.locks == lock_all(a.locks, key, a.w.b.locks(key)),
    ensures
        exact_locks(b),
{
    reveal(exact_locks);
    let locks = a.w.b.locks(key);
    let n = locks.len() as int;
    assert(locks.take(n) =~= locks);
    lemma_no_empty_entry(a.locks, key, locks, n);
    assert forall|k: u64| #[trigger] b.w.s.executing.contains_key(k) <==> a.w.s.executing.contains_key(
        k,
    ) || k == key by {
        assert(b.w.s.executing.dom().contains(k) <==> a.w.s.executing.dom().insert(key).contains(k));
    }
    assert forall|account: Pubkey, k: u64| #[trigger]
        lockers_at(b.locks, account).writers.contains(k) <==> b.w.s.executing.contains_key(k)
            && needs(b.w.b, k, account, true) by {
        lemma_lock_at(a.locks, key, locks, n, account, k);
        assert(lockers_at(a.locks, account).writers.contains(k) <==> a.w.s.executing.contains_key(k)
            && needs(a.w.b, k, account, true));
    }
    assert forall|account: Pubkey, k: u64| #[trigger]
        lockers_at(b.locks, account).readers.contains(k) <==> b.w.s.executing.contains_key(k)
            && needs(b.w.b, k, account, false) by {
        lemma_lock_at(a.locks, key, locks, n, account, k);
        assert(lockers_at(a.locks, account).readers.contains(k) <==> a.w.s.executing.contains_key(k)
            && needs(a.w.b, k, account, false));
    }
}

/// A transaction gives up its locks and no longer executes.
proof fn lemma_unlock_exact(a: BatchWorld, key: u64)
    requires
        exact_locks(a),
        a.w.s.executing.contains_key(key),
    ensures
        exact_locks(
            BatchWorld {
                w: a.w.stop_executing(key),
                locks: unlock_all(a.locks, key, a.w.b.locks(key)),
            },
        ),
{
    reveal(exact_locks);
    let b = BatchWorld {
        w: a.w.stop_executing(key),
        locks: unlock_all(a.locks, key, a.w.b.locks(key)),
    };
    let locks = a.w.b.locks(key);
    let n = locks.len() as int;
    assert(locks.take(n) =~= locks);
    lemma_no_empty_entry(a.locks, key, locks, n);
    assert forall|account: Pubkey, k: u64| #[trigger]
        lockers_at(b.locks, account).writers.contains(k) <==> b.w.s.executing.contains_key(k)
            && needs(b.w.b, k, account, true) by {
        lemma_unlock_at(a.locks, key, locks, n, account, k);
        assert(lockers_at(a.locks, account).writers.contains(k) <==> a.w.s.executing.contains_key(k)
            && needs(a.w.b, k, account, true));
    }
    assert forall|account: Pubkey, k: u64| #[trigger]
        lockers_at(b.locks, account).readers.contains(k) <==> b.w.s.executing.contains_key(k)
            && needs(b.w.b, k, account, false) by {
        lemma_unlock_at(a.locks, key, locks, n, account, k);
        assert(lockers_at(a.locks, account).readers.contains(k) <==> a.w.s.executing.contains_key(k)
            && needs(a.w.b, k, account, false));
    }
}

/// Where locks are exact, what can be locked conflicts with nothing that
/// executes.
pub proof fn lemma_no_conflict_with_executing(
    b: BatchWorld,
    key: u64,
    other: u64,
    account: Pubkey,
    writable: bool,
)
    requires
        exact_locks(b),
        b.can_lock(key),
        b.w.s.executing.contains_key(other),
        needs(b.w.b, key, account, writable),
    ensures
        !needs(b.w.b, other, account, true),
        writable ==> !needs(b.w.b, other, account, false),
{
    reveal(exact_locks);
    let locks = b.w.b.locks(key);
    let i = locks.index_of((account, writable));
    assert(locks[i] == (account, writable));
    let lockers = lockers_at(b.locks, account);
    assert(lockers.can_lock(writable));
    assert(!lockers.writers.contains(other));
    if writable {
        assert(!lockers.readers.contains(other));
    }
}

pub(crate) proof fn lemma_still_stable(a: World, b: World, c: World)
    requires
        stable(a, b),
        still(b, c),
    ensures
        stable(a, c),
{
    assert forall|key: u64| #[trigger]
        c.b.transactions.contains_key(key) && a.b.transactions.contains_key(key) implies c.b.transactions[key]
        == a.b.transactions[key] by {
        assert(b.b.transactions.contains_key(key));
    }
}

/// A new transaction changes no other.
pub(crate) proof fn lemma_inserted_stable(w: World, packet: Seq<u8>)
    requires
        orderly(w),
    ensures
        match w.b.inserted(packet) {
            (b, Some(key)) => stable(w, World { b, ..w }),
            (b, None) => b == w.b,
        },
{
    lemma_inserted(w, packet);
    if let (b, Some(key)) = w.b.inserted(packet) {
        assert(!w.b.transactions.contains_key(key)) by {
            assert(!live(w.b).contains(key));
        }
    }
}

/// A new transaction changes no other.
pub(crate) proof fn lemma_received_stable(w: World, packet: Seq<u8>, simple_vote: bool)
    requires
        orderly(w),
    ensures
        match w.b.received(packet, simple_vote) {
            (b, Some(key)) => stable(w, World { b, ..w }),
            (b, None) => b == w.b,
        },
{
    lemma_received(w, packet, simple_vote);
    if let (b, Some(key)) = w.b.received(packet, simple_vote) {
        assert(!w.b.transactions.contains_key(key)) by {
            assert(!live(w.b).contains(key));
        }
    }
}

/// The transactions of a bundle change no other.
proof fn lemma_scan_stable(w: World, packets: Seq<Seq<u8>>, values: Seq<Option<(u64, u64)>>, n: int)
    requires
        orderly(w),
    ensures
        stable(w, World { b: scan_upto(w.b, packets, values, n).b, ..w }),
        forall|key: u64| #[trigger]
            w.b.transactions.contains_key(key) ==> scan_upto(
                w.b,
                packets,
                values,
                n,
            ).b.transactions.contains_key(key),
    decreases n,
{
    if n > 0 {
        lemma_scan_stable(w, packets, values, n - 1);
        lemma_scan(w, packets, values, n - 1);
        let before = scan_upto(w.b, packets, values, n - 1);
        lemma_inserted_stable(World { b: before.b, ..w }, packets[n - 1]);
        let after = scan_upto(w.b, packets, values, n);
        let next = before.b.inserted(packets[n - 1]).0;
        assert(after.b == before.b || after.b == next);
        assert forall|key: u64| #[trigger]
            after.b.transactions.contains_key(key) && w.b.transactions.contains_key(
                key,
            ) implies after.b.transactions[key] == w.b.transactions[key] by {
            assert(before.b.transactions.contains_key(key));
            assert(World { b: before.b, ..w }.b.transactions.contains_key(key));
            if let (_, Some(new)) = before.b.inserted(packets[n - 1]) {
                assert(stable(World { b: before.b, ..w }, World { b: next, ..w }));
                assert(World { b: next, ..w }.b.transactions.contains_key(key) || after.b
                    == before.b);
            }
        }
    }
}

proof fn lemma_dropped_kept(b: BridgeModel, keys: Seq<u64>, n: int)
    ensures
        transactions_kept(b, b.dropped_upto(keys, n)),
    decreases n,
{
    if n > 0 {
        lemma_dropped_kept(b, keys, n - 1);
    }
}

/// A bundle that comes in changes no other transaction.
pub(crate) proof fn lemma_scan_bundle_stable(
    w: World,
    packets: Seq<Seq<u8>>,
    values: Seq<Option<(u64, u64)>>,
)
    requires
        orderly(w),
    ensures
        stable(w, w.scan_bundle(packets, values).0),
{
    let n = packets.len() as int;
    lemma_scan_stable(w, packets, values, n);
    let scan = scan_upto(w.b, packets, values, n);
    let taken = World { b: scan.b, ..w };
    lemma_dropped_kept(scan.b, scan.keys, scan.keys.len() as int);
    let dropped = World { b: scan.b.dropped_all(scan.keys), ..w };
    assert(still(taken, dropped));
    lemma_still_stable(w, taken, dropped);
}

/// Two new transactions take their locks and execute, or are let go of.
proof fn lemma_batch_tips_exact(b: BatchWorld)
    requires
        orderly(b.w),
        exact_locks(b),
    ensures
        exact_locks(b.become_tip_receiver()),
{
    lemma_batch_tips(b);
    if let Some((init, change)) = b.w.s.tip_packets() {
        let after = b.submit_tips(init, change);
        lemma_inserted(b.w, init);
        lemma_inserted_stable(b.w, init);
        if let (first, Some(init_key)) = b.w.b.inserted(init) {
            let one = World { b: first, ..b.w };
            lemma_inserted(one, change);
            lemma_inserted_stable(one, change);
            match first.inserted(change) {
                (second, Some(change_key)) => {
                    let two = BatchWorld { w: World { b: second, ..b.w }, ..b };
                    assert(stable(b.w, two.w)) by {
                        assert forall|key: u64| #[trigger]
                            second.transactions.contains_key(key) && b.w.b.transactions.contains_key(
                                key,
                            ) implies second.transactions[key] == b.w.b.transactions[key] by {
                            assert(first.transactions.contains_key(key));
                        }
                    }
                    lemma_stable_exact(b, two);
                    assert(loose(two.w).contains(init_key) && loose(two.w).contains(change_key));
                    if two.can_lock(init_key) && two.can_lock(change_key) {
                        let half = BatchWorld {
                            w: World {
                                s: CoreModel {
                                    executing: with_executing(two.w.s.executing, init_key, 0),
                                    ..two.w.s
                                },
                                ..two.w
                            },
                            locks: lock_all(two.locks, init_key, two.w.b.locks(init_key)),
                        };
                        assert(half.w.s.executing.dom() =~= two.w.s.executing.dom().insert(
                            init_key,
                        ));
                        lemma_lock_exact(two, init_key, half);
                        assert(after.w.s.executing.dom() =~= half.w.s.executing.dom().insert(
                            change_key,
                        ));
                        lemma_lock_exact(half, change_key, after);
                    } else {
                        assert(still(two.w, after.w));
                        lemma_still_stable(b.w, two.w, after.w);
                        lemma_stable_exact(b, after);
                    }
                },
                (second, None) => {
                    assert(still(one, after.w));
                    lemma_still_stable(b.w, one, after.w);
                    lemma_stable_exact(b, after);
                },
            }
        }
    }
}

proof fn lemma_batch_roll_exact(b: BatchWorld, update: Option<ProgressMessage>, now: u64)
    requires
        orderly(b.w),
        exact_locks(b),
    ensures
        exact_locks(b.check_slot_roll(update, now)),
{
    let noted = b.w.note_progress(update, now);
    lemma_same_places(b.w, noted);
    assert(still(b.w, noted));
    lemma_roll_slot(noted);
    lemma_roll_still(noted);
    let rolled = noted.roll_slot();
    lemma_still_chain(b.w, noted, rolled);
    lemma_stable_exact(b, BatchWorld { w: rolled, ..b });
    if noted.becomes_leader() {
        let led = rolled.report_leader();
        lemma_same_places(rolled, led);
        assert(still(rolled, led));
        lemma_stable_exact(BatchWorld { w: rolled, ..b }, BatchWorld { w: led, ..b });
        lemma_batch_tips_exact(BatchWorld { w: led, ..b });
    }
}

/// What a check says about an executing transaction changes none of its locks.
pub open spec fn same_lookups(w: World, meta: PriorityId, response: ResponseModel) -> bool {
    response matches ResponseModel::Check(_, keys) ==> (w.s.executing.contains_key(meta.key)
        && w.b.transactions.contains_key(meta.key) ==> (TransactionModel {
        resolved: keys,
        ..w.b.transactions[meta.key]
    }).locks() == w.b.transactions[meta.key].locks())
}

/// After what a check brought, what executes needs the locks that it needed.
pub(crate) proof fn lemma_checked_running(
    a: World,
    checked: World,
    meta: PriorityId,
    rep: CheckResponse,
    keys: Option<Seq<Pubkey>>,
    b: World,
)
    requires
        orderly(a),
        orderly(b),
        still(a, checked),
        same_lookups(a, meta, ResponseModel::Check(rep, keys)),
        ({
            let resolved = World { b: checked.b.resolved(meta.key, keys), ..checked };
            b == resolved || b == resolved.drop_tx(meta.key)
        }),
    ensures
        same_running(a, b),
{
    reveal(orderly);
    assert forall|key: u64| #[trigger] a.s.executing.contains_key(key) implies b.b.locks(key)
        == a.b.locks(key) by {
        assert(held(a.s).contains(key) && held(b.s).contains(key));
        assert(live(a.b).contains(key) && live(b.b).contains(key));
        assert(b.b.transactions.contains_key(key) && a.b.transactions.contains_key(key));
        assert(checked.b.transactions.contains_key(key));
    }
}

proof fn lemma_batch_response_exact(b: BatchWorld, meta: PriorityId, response: ResponseModel)
    requires
        orderly(b.w),
        exact_locks(b),
        answers(b.w, meta, response),
        same_lookups(b.w, meta, response),
    ensures
        exact_locks(b.on_response(meta, response)),
{
    lemma_batch_response(b, meta, response);
    reveal(BatchWorld::on_response);
    let key = meta.key;
    let after = b.on_response(meta, response);
    if b.w.b.transactions.contains_key(key) {
        let stopped = BatchWorld {
            w: b.w.stop_executing(key),
            locks: unlock_all(b.locks, key, b.w.b.locks(key)),
        };
        if b.w.s.executing.contains_key(key) {
            lemma_unlock_exact(b, key);
            lemma_stop_executing(b.w, key);
        }
        match response {
            ResponseModel::Unprocessed => {
                if b.w.s.executing.contains_key(key) {
                    assert(still(stopped.w, b.w.unprocessed(meta).0));
                    assert(still(stopped.w, after.w));
                    lemma_stable_exact(stopped, after);
                }
            },
            ResponseModel::Execute(rep) => {
                if b.w.s.executing.contains_key(key) {
                    lemma_executed_still(b.w, meta, rep);
                    let executed = b.w.executed(meta, rep).0;
                    assert(still(executed, executed.drop_tx(key)));
                    lemma_still_chain(stopped.w, executed, executed.drop_tx(key));
                    lemma_stable_exact(stopped, after);
                }
            },
            ResponseModel::Check(rep, keys) => {
                lemma_batch_check_still(b, meta, rep, keys);
                let checked = b.on_check(meta, rep, keys).0;
                lemma_checked_running(b.w, checked.w, meta, rep, keys, after.w);
                lemma_same_running_exact(b, after);
            },
        }
    }
}

proof fn lemma_batch_responses_exact(
    b: BatchWorld,
    responses: Seq<(PriorityId, ResponseModel)>,
    n: int,
)
    requires
        orderly(b.w),
        exact_locks(b),
        0 <= n <= responses.len(),
        forall|i: int|
            0 <= i < n ==> {
                let before = (#[trigger] b.on_responses(responses, i)).w;
                answers(before, responses[i].0, responses[i].1) && same_lookups(
                    before,
                    responses[i].0,
                    responses[i].1,
                )
            },
    ensures
        exact_locks(b.on_responses(responses, n)),
        orderly(b.on_responses(responses, n).w),
    decreases n,
{
    if n > 0 {
        lemma_batch_responses_exact(b, responses, n - 1);
        let before = b.on_responses(responses, n - 1);
        assert(answers(before.w, responses[n - 1].0, responses[n - 1].1));
        lemma_batch_response_exact(before, responses[n - 1].0, responses[n - 1].1);
        lemma_batch_response(before, responses[n - 1].0, responses[n - 1].1);
    }
}

proof fn lemma_batch_tpu_exact(b: BatchWorld, packet: Seq<u8>, simple_vote: bool)
    requires
        orderly(b.w),
        exact_locks(b),
    ensures
        exact_locks(b.on_tpu(packet, simple_vote)),
{
    lemma_batch_tpu(b, packet, simple_vote);
    reveal(BatchWorld::on_tpu);
    lemma_received_stable(b.w, packet, simple_vote);
    let after = b.on_tpu(packet, simple_vote);
    if let (received, Some(key)) = b.w.b.received(packet, simple_vote) {
        let taken = World { b: received, ..b.w };
        assert(still(taken, after.w));
        lemma_still_stable(b.w, taken, after.w);
    }
    lemma_stable_exact(b, after);
}

proof fn lemma_batch_tpu_upto_exact(b: BatchWorld, tpu: Seq<(Seq<u8>, bool)>, n: int)
    requires
        orderly(b.w),
        exact_locks(b),
    ensures
        exact_locks(b.on_tpu_upto(tpu, n)),
        orderly(b.on_tpu_upto(tpu, n).w),
    decreases n,
{
    if n > 0 {
        lemma_batch_tpu_upto_exact(b, tpu, n - 1);
        let before = b.on_tpu_upto(tpu, n - 1);
        lemma_batch_tpu_exact(before, tpu[n - 1].0, tpu[n - 1].1);
        lemma_batch_tpu(before, tpu[n - 1].0, tpu[n - 1].1);
    }
}

proof fn lemma_batch_update_exact(b: BatchWorld, update: UpdateModel, now: u64)
    requires
        orderly(b.w),
        exact_locks(b),
    ensures
        exact_locks(b.on_update(update, now)),
{
    lemma_batch_update(b, update, now);
    reveal(BatchWorld::on_update);
    let after = b.on_update(update, now);
    match update {
        UpdateModel::Packet(packet) => {
            lemma_inserted_stable(b.w, packet);
            if let (inserted, Some(key)) = b.w.b.inserted(packet) {
                let taken = World { b: inserted, ..b.w };
                let evicted = taken.evict_unchecked();
                assert(still(taken, evicted));
                assert(still(taken, after.w) || still(evicted, after.w));
                if still(evicted, after.w) {
                    lemma_still_chain(taken, evicted, after.w);
                }
                lemma_still_stable(b.w, taken, after.w);
            }
        },
        UpdateModel::Bundle(packets) => {
            let values = bundle_values(b.w.b.runtime, packets);
            lemma_scan_bundle_stable(b.w, packets, values);
            if let (w, Some((keys, cost, value))) = b.w.scan_bundle(packets, values) {
                lemma_store_bundle_still(
                    w,
                    BundleModel {
                        priority: bundle_priority_of(cost, value),
                        cost,
                        received_at: now,
                        keys,
                    },
                );
                lemma_still_stable(b.w, w, after.w);
            }
        },
        _ => {},
    }
    lemma_stable_exact(b, after);
}

proof fn lemma_batch_updates_exact(b: BatchWorld, updates: Seq<UpdateModel>, now: u64, n: int)
    requires
        orderly(b.w),
        exact_locks(b),
    ensures
        exact_locks(b.on_updates(updates, now, n)),
        orderly(b.on_updates(updates, now, n).w),
    decreases n,
{
    if n > 0 {
        lemma_batch_updates_exact(b, updates, now, n - 1);
        let before = b.on_updates(updates, now, n - 1);
        lemma_batch_update_exact(before, updates[n - 1], now);
        lemma_batch_update(before, updates[n - 1], now);
    }
}

/// Marking transactions as executing changes no transaction.
pub(crate) proof fn lemma_mark_executes(w: World, batch: Seq<KeyedTransactionMeta>, n: int)
    requires
        0 <= n <= batch.len(),
    ensures
        w.mark_executing_upto(batch, n).b.transactions == w.b.transactions,
        forall|key: u64| #[trigger]
            w.mark_executing_upto(batch, n).s.executing.contains_key(key)
                <==> w.s.executing.contains_key(key) || message_keys(batch.take(n)).contains(key),
    decreases n,
{
    if n > 0 {
        lemma_mark_executes(w, batch, n - 1);
        let shorter = batch.take(n - 1);
        let longer = batch.take(n);
        assert forall|key: u64| #[trigger] message_keys(longer).contains(key) <==> message_keys(
            shorter,
        ).contains(key) || key == batch[n - 1].key by {
            if message_keys(shorter).contains(key) {
                let i = choose|i: int| 0 <= i < shorter.len() && (#[trigger] shorter[i]).key == key;
                assert(longer[i].key == key);
            }
            assert(longer[n - 1].key == batch[n - 1].key);
            if message_keys(longer).contains(key) && key != batch[n - 1].key {
                let i = choose|i: int| 0 <= i < longer.len() && (#[trigger] longer[i]).key == key;
                assert(shorter[i].key == key);
            }
        }
    } else {
        assert(message_keys(batch.take(0)) =~= Set::empty());
    }
}

/// The transactions of a message take their locks and execute.
proof fn lemma_lock_many_exact(
    b: BatchWorld,
    keys: Seq<u64>,
    batch: Seq<KeyedTransactionMeta>,
    n: int,
)
    requires
        exact_locks(b),
        0 <= n <= batch.len(),
        batch.len() == keys.len(),
        forall|i: int| 0 <= i < batch.len() ==> (#[trigger] batch[i]).key == keys[i],
        distinct_message(batch),
        forall|i: int|
            0 <= i < batch.len() ==> !b.w.s.executing.contains_key((#[trigger] batch[i]).key),
    ensures
        exact_locks(
            BatchWorld {
                w: b.w.mark_executing_upto(batch, n),
                locks: b.lock_upto(keys, n).locks,
            },
        ),
    decreases n,
{
    if n > 0 {
        lemma_lock_many_exact(b, keys, batch, n - 1);
        let before = BatchWorld {
            w: b.w.mark_executing_upto(batch, n - 1),
            locks: b.lock_upto(keys, n - 1).locks,
        };
        let after = BatchWorld {
            w: b.w.mark_executing_upto(batch, n),
            locks: b.lock_upto(keys, n).locks,
        };
        let key = keys[n - 1];
        lemma_lock_upto_world(b, keys, n - 1);
        lemma_mark_executes(b.w, batch, n - 1);
        lemma_mark_executes(b.w, batch, n);
        assert(!before.w.s.executing.contains_key(key)) by {
            assert(batch[n - 1].key == key);
            if message_keys(batch.take(n - 1)).contains(key) {
                let i = choose|i: int|
                    0 <= i < n - 1 && (#[trigger] batch.take(n - 1)[i]).key == key;
                assert(batch[i].key == key);
            }
        }
        assert(after.w.s.executing.dom() =~= before.w.s.executing.dom().insert(key));
        lemma_lock_exact(before, key, after);
    }
}

/// Starting the best that waits leaves locks exact.
proof fn lemma_batch_best_exact(b: BatchWorld, budget: u64, worker: usize)
    requires
        orderly(b.w),
        exact_locks(b),
    ensures
        ({
            let (next, _, batch) = b.try_best(budget, worker);
            if batch.len() == 0 {
                exact_locks(next)
            } else {
                exact_locks(BatchWorld { w: next.w.start_batch(batch), ..next })
            }
        }),
{
    let checked = b.w.s.checked;
    let bundles = b.w.s.bundles;
    let (next, _, batch) = b.try_best(budget, worker);
    lemma_batch_best(b, budget, worker);
    let keys = Seq::new(batch.len(), |i: int| batch[i].key);
    let n = batch.len() as int;
    assert forall|i: int| 0 <= i < batch.len() implies !b.w.s.executing.contains_key(
        (#[trigger] batch[i]).key,
    ) by {
        assert(message_keys(batch).contains(batch[i].key));
        assert(loose(next.w).contains(batch[i].key));
        assert(!held(next.w.s).contains(batch[i].key));
        lemma_batch_best_still(b, budget, worker);
        assert(next.w.s.executing == b.w.s.executing);
    }
    lemma_lock_many_exact(b, keys, batch, n);
    lemma_batch_best_still(b, budget, worker);
    let locked = BatchWorld { w: b.w.mark_executing_upto(batch, n), locks: b.lock_upto(keys, n).locks };
    assert(next.locks == locked.locks) by {
        if checked.len() > 0 && (bundles.len() == 0 || checked.last().priority
            >= bundles.last().priority) {
            if batch.len() > 0 {
                assert(keys =~= seq![checked.last().key]);
                assert(b.lock_upto(keys, 0) == b);
                assert(b.lock_upto(keys, 1).locks == b.lock(checked.last().key).locks);
            }
        } else if bundles.len() > 0 {
            let own = bundles.last().keys;
            if !(bundles.last().cost > budget || !b.can_lock_keys(own)) {
                assert(batch == bundle_message(own, bundles.last().cost));
                assert(keys =~= own);
            }
        }
    }
    let after = BatchWorld { w: next.w.start_batch(batch), ..next };
    lemma_mark_executes(b.w, batch, n);
    lemma_mark_executes(next.w, batch, n);
    assert(next.w.b.transactions == b.w.b.transactions) by {
        lemma_batch_best_transactions(b, budget, worker);
    }
    if batch.len() == 0 {
        assert(locked.w == b.w);
        lemma_same_running_exact(locked, next);
    } else {
        assert(after.w.s.executing.dom() =~= locked.w.s.executing.dom());
        lemma_same_running_exact(locked, after);
    }
}

proof fn lemma_batch_best_transactions(b: BatchWorld, budget: u64, worker: usize)
    ensures
        b.try_best(budget, worker).0.w.b.transactions == b.w.b.transactions,
{
    if b.w.s.bundles.len() > 0 {
        let keys = b.w.s.bundles.last().keys;
        lemma_lock_upto_world(b, keys, keys.len() as int);
    }
}

proof fn lemma_batch_execute_exact(b: BatchWorld, budget: u64, worker: int, n: int)
    requires
        orderly(b.w),
        exact_locks(b),
    ensures
        exact_locks(b.execute_from(budget, worker, n)),
    decreases n - worker,
{
    if worker >= n || budget == 0 {
    } else if b.w.b.workers[worker].len != 0 {
        lemma_batch_execute_exact(b, budget, worker + 1, n);
    } else {
        let (next, left, batch) = b.try_best(budget, worker as usize);
        lemma_batch_best(b, budget, worker as usize);
        lemma_batch_best_exact(b, budget, worker as usize);
        if batch.len() > 0 {
            lemma_freed_started(b.w, next.w, batch);
            lemma_batch_execute_exact(
                BatchWorld { w: next.w.start_batch(batch), ..next },
                left,
                worker + 1,
                n,
            );
        }
    }
}

/// A round of the batch scheduler leaves each account locked exactly for the
/// executing transactions that need it.
pub proof fn lemma_batch_round_exact(b: BatchWorld, input: PollModel)
    requires
        orderly(b.w),
        exact_locks(b),
        forall|i: int|
            0 <= i < input.responses.len() ==> {
                let before = (#[trigger] b.check_slot_roll(
                    input.progress,
                    input.now,
                ).on_responses(input.responses, i)).w;
                answers(before, input.responses[i].0, input.responses[i].1) && same_lookups(
                    before,
                    input.responses[i].0,
                    input.responses[i].1,
                )
            },
    ensures
        exact_locks(b.poll(input)),
{
    let now = input.now;
    lemma_batch_roll(b, input.progress, now);
    lemma_batch_roll_exact(b, input.progress, now);
    let rolled = b.check_slot_roll(input.progress, now);
    let n = input.responses.len() as int;
    lemma_batch_responses_exact(rolled, input.responses, n);
    let answered = rolled.on_responses(input.responses, n);
    let limit = round_limit(answered.is_leader());
    let additional = if input.tpu.len() < limit {
        input.tpu.len() as int
    } else {
        limit
    };
    let roomy = BatchWorld { w: answered.w.make_room(additional as nat), ..answered };
    lemma_make_room(answered.w, additional as nat);
    lemma_make_room_still(answered.w, additional as nat);
    lemma_stable_exact(answered, roomy);
    lemma_batch_tpu_upto_exact(roomy, input.tpu, additional);
    let drained = answered.drain_tpu(input.tpu, limit);
    let fresh = BatchWorld { w: drained.w.drop_expired_bundles(now), ..drained };
    lemma_drop_expired(drained.w, now);
    lemma_drop_expired_still(drained.w, now);
    lemma_stable_exact(drained, fresh);
    lemma_batch_updates_exact(fresh, input.updates, now, input.updates.len() as int);
    let taken = b.take_in(input).0;
    let checks = BatchWorld { w: taken.w.schedule_checks(), ..taken };
    lemma_schedule_checks(taken.w);
    lemma_schedule_checks_still(taken.w);
    lemma_stable_exact(taken, checks);
    if answered.is_leader() {
        let budget = budget_of(
            checks.w.b.progress,
            checks.w.s.runtime.block_fill_cutoff,
            checks.w.s.in_flight_cus,
        ) as u64;
        lemma_batch_execute_exact(
            checks,
            budget,
            EXECUTE_WORKER_START as int,
            checks.w.b.workers.len() as int,
        );
        let executed = checks.schedule_execute();
        lemma_same_running_exact(
            executed,
            BatchWorld { w: executed.w.start_recheck(), ..executed },
        );
    }
}

/// A scheduler without locks, of which nothing executes, has its locks exact.
pub proof fn lemma_batch_started_exact(b: BatchWorld)
    requires
        b.locks == Map::<Pubkey, LockersModel>::empty(),
        b.w.s.executing == Map::<u64, u64>::empty(),
    ensures
        exact_locks(b),
{
    reveal(exact_locks);
}

/// A transaction that executes holds its locks, so that it can give them up.
pub proof fn lemma_executing_holds_locks(b: BatchWorld, key: u64)
    requires
        exact_locks(b),
        b.w.s.executing.contains_key(key),
    ensures
        b.holds_locks(key),
{
    reveal(exact_locks);
    let locks = b.w.b.locks(key);
    assert forall|i: int| 0 <= i < locks.len() implies lockers_at(
        b.locks,
        (#[trigger] locks[i]).0,
    ).holds_as(key, locks[i].1) by {
        assert(locks[i] == (locks[i].0, locks[i].1));
        assert(needs(b.w.b, key, locks[i].0, locks[i].1));
    }
}

/// What is started conflicts with nothing that executes already.
pub proof fn lemma_batch_starts_no_conflict(
    b: BatchWorld,
    budget: u64,
    worker: usize,
    i: int,
    other: u64,
    account: Pubkey,
    writable: bool,
)
    requires
        exact_locks(b),
        0 <= i < b.try_best(budget, worker).2.len(),
        b.w.s.executing.contains_key(other),
        needs(b.w.b, b.try_best(budget, worker).2[i].key, account, writable),
    ensures
        !needs(b.w.b, other, account, true),
        writable ==> !needs(b.w.b, other, account, false),
{
    let key = b.try_best(budget, worker).2[i].key;
    lemma_started_without_conflict(b, budget, worker, i);
    lemma_no_conflict_with_executing(b, key, other, account, writable);
}

} // verus!
