//! Which of the things that wait is started first.

use vstd::prelude::*;

use crate::auction_engine::{
    acquired_upto, grants, grants_all, holders_at, lemma_acquired_at, Holders,
};
use crate::auction_laws::lemma_rolled_back_restores;
use crate::auction_lock_laws::exact_holders;
use crate::auction_model::{
    acquire_upto, pick_upto, picked_message, rolled_back, AuctionWorld, SEARCH_LIMIT,
};
use crate::batch_model::BatchWorld;
use crate::bridge::{ActionModel, BatchModel, BridgeModel, KeyedTransactionMeta};
use crate::lifecycle::{bundle_keys, orderly};
use crate::locks::{can_lock_all, lockers_at, LockTable};
use crate::ordered::{increasing, lemma_without_item};
use crate::pubkey::Pubkey;
use crate::scheduler_model::World;
use crate::shared::PriorityId;

verus! {

/// Whether somebody stands in the way of a lock: a writer, or, for a write lock,
/// a reader.
pub open spec fn in_the_way(table: LockTable, lock: (Pubkey, bool), key: u64) -> bool {
    ||| lockers_at(table, lock.0).writers.contains(key)
    ||| lock.1 && lockers_at(table, lock.0).readers.contains(key)
}

/// A batch scheduler's lock is granted if nobody writes the account and, for a
/// write lock, nobody reads it; and only then.
pub proof fn lemma_batch_grants(table: LockTable, locks: Seq<(Pubkey, bool)>)
    ensures
        can_lock_all(table, locks) <==> forall|i: int, key: u64|
            0 <= i < locks.len() ==> !#[trigger] in_the_way(table, locks[i], key),
{
    if can_lock_all(table, locks) {
        assert forall|i: int, key: u64| 0 <= i < locks.len() implies !#[trigger] in_the_way(
            table,
            locks[i],
            key,
        ) by {
            let lock = locks[i];
            assert(lockers_at(table, lock.0).can_lock(lock.1));
        }
    }
    if forall|i: int, key: u64|
        0 <= i < locks.len() ==> !#[trigger] in_the_way(table, locks[i], key) {
        assert forall|i: int| 0 <= i < locks.len() implies lockers_at(
            table,
            (#[trigger] locks[i]).0,
        ).can_lock(locks[i].1) by {
            let lockers = lockers_at(table, locks[i].0);
            assert forall|key: u64| !lockers.writers.contains(key) by {
                assert(!in_the_way(table, locks[i], key));
            }
            assert(lockers.writers =~= Set::empty());
            if locks[i].1 {
                assert forall|key: u64| !lockers.readers.contains(key) by {
                    assert(!in_the_way(table, locks[i], key));
                }
                assert(lockers.readers =~= Set::empty());
            }
        }
    }
}

/// An auction scheduler's lock is granted if nobody writes the account and, for
/// a write lock, nobody holds it at all; and only then.
pub proof fn lemma_auction_grants(table: Holders, locks: Seq<(Pubkey, bool)>)
    ensures
        grants_all(table, locks) <==> forall|i: int, key: u64|
            #![trigger holders_at(table, locks[i].0).contains_key(key)]
            0 <= i < locks.len() && holders_at(table, locks[i].0).contains_key(key) ==> !locks[i].1
                && !holders_at(table, locks[i].0)[key],
{
    if grants_all(table, locks) {
        assert forall|i: int, key: u64|
            #![trigger holders_at(table, locks[i].0).contains_key(key)]
            0 <= i < locks.len() && holders_at(table, locks[i].0).contains_key(key) implies !locks[i].1
            && !holders_at(table, locks[i].0)[key] by {
            let lock = locks[i];
            assert(grants(holders_at(table, lock.0), lock.1));
        }
    } else if forall|i: int, key: u64|
        #![trigger holders_at(table, locks[i].0).contains_key(key)]
        0 <= i < locks.len() && holders_at(table, locks[i].0).contains_key(key) ==> !locks[i].1
            && !holders_at(table, locks[i].0)[key] {
        assert forall|i: int| 0 <= i < locks.len() implies grants(
            holders_at(table, (#[trigger] locks[i]).0),
            locks[i].1,
        ) by {
            let holders = holders_at(table, locks[i].0);
            if locks[i].1 {
                assert forall|key: u64| !holders.contains_key(key) by {
                    if holders_at(table, locks[i].0).contains_key(key) {
                    }
                }
                assert(holders =~= Map::empty());
            }
        }
    }
}

/// Whether a waiting transaction can be started: it is among those looked at, it
/// fits the budget, and its locks are granted.
pub open spec fn transaction_startable(a: AuctionWorld, budget: u64) -> bool {
    exists|i: int|
        0 <= i < a.w.s.checked.len() && a.w.s.checked.len() - i <= 65536 && (
        #[trigger] a.w.s.checked[i]).cost <= budget && a.can_lock(a.w.s.checked[i].key)
}

/// Whether the bundle of highest priority can be started: it fits the budget,
/// and its transactions can take their locks one after another.
pub open spec fn bundle_startable(a: AuctionWorld, budget: u64) -> bool {
    &&& a.w.s.bundles.len() > 0
    &&& a.w.s.bundles.last().cost <= budget
    &&& a.can_lock_keys(a.w.s.bundles.last().keys)
    &&& acquire_upto(
        a.held,
        a.w.b,
        a.w.s.bundles.last().keys,
        a.w.s.bundles.last().keys.len() as int,
    ) is Some
}

/// Whether the bundle of highest priority was sent: whole, in order, to be
/// executed all or not at all; and nothing else left the queues.
pub open spec fn bundle_sent(
    a: AuctionWorld,
    budget: u64,
    worker: usize,
    result: (AuctionWorld, u64, Seq<KeyedTransactionMeta>),
) -> bool {
    let bundle = a.w.s.bundles.last();
    let (next, left, batch) = result;
    &&& a.w.s.bundles.len() > 0
    &&& batch.len() == bundle.keys.len()
    &&& forall|i: int|
        0 <= i < batch.len() ==> (#[trigger] batch[i]).key == bundle.keys[i] && batch[i].meta == (
        PriorityId {
            priority: u64::MAX,
            cost: if i == 0 {
                bundle.cost
            } else {
                0
            },
            key: bundle.keys[i],
        })
    &&& next.w.s.bundles == a.w.s.bundles.drop_last()
    &&& next.w.s.checked == a.w.s.checked
    &&& left == budget - bundle.cost
    &&& next.w.b.actions.len() > a.w.b.actions.len()
    &&& next.w.b.actions[a.w.b.actions.len() as int] == (ActionModel::Schedule {
        batch: BatchModel {
            worker,
            transactions: batch,
            max_working_slot: (a.w.b.progress.current_slot + 1) as u64,
            flags: 7,
        },
    })
}

/// Whether transactions were sent: some that waited, which no longer wait; and
/// every bundle still does.
pub open spec fn transactions_sent(
    a: AuctionWorld,
    budget: u64,
    worker: usize,
    result: (AuctionWorld, u64, Seq<KeyedTransactionMeta>),
) -> bool {
    let (next, left, batch) = result;
    &&& 0 < batch.len() <= 32
    &&& forall|i: int|
        0 <= i < batch.len() ==> a.w.s.checked.contains((#[trigger] batch[i]).meta) && batch[i].key
            == batch[i].meta.key
    &&& forall|id: PriorityId| #[trigger]
        next.w.s.checked.contains(id) <==> a.w.s.checked.contains(id) && !(exists|i: int|
            0 <= i < batch.len() && (#[trigger] batch[i]).meta == id)
    &&& next.w.s.bundles == a.w.s.bundles
    &&& left <= budget
    &&& next.w.b.actions.len() > a.w.b.actions.len()
    &&& next.w.b.actions[a.w.b.actions.len() as int] == (ActionModel::Schedule {
        batch: BatchModel {
            worker,
            transactions: batch,
            max_working_slot: (a.w.b.progress.current_slot + 1) as u64,
            flags: 1,
        },
    })
}

proof fn lemma_pick_some(
    held: Holders,
    b: BridgeModel,
    checked: Seq<PriorityId>,
    budget: u64,
    n: int,
)
    requires
        0 <= n <= checked.len(),
    ensures
        ({
            let p = pick_upto(held, b, checked, budget, n);
            &&& p.picked.len() == 0 <==> forall|i: int|
                checked.len() - n <= i < checked.len() ==> (#[trigger] checked[i]).cost > budget
                    || !grants_all(held, b.locks(checked[i].key))
            &&& p.picked.len() == 0 ==> p.held == held && p.budget == budget
            &&& p.budget <= budget
            &&& p.picked.len() <= 32
            &&& forall|i: int| 0 <= i < p.picked.len() ==> checked.contains(#[trigger] p.picked[i])
        }),
    decreases n,
{
    if n > 0 {
        lemma_pick_some(held, b, checked, budget, n - 1);
        let before = pick_upto(held, b, checked, budget, n - 1);
        let p = pick_upto(held, b, checked, budget, n);
        let tx = checked[checked.len() - n];
        if before.picked.len() == 0 {
            assert forall|i: int|
                checked.len() - n <= i < checked.len() && p.picked.len() == 0 implies (
            #[trigger] checked[i]).cost > budget || !grants_all(held, b.locks(checked[i].key)) by {
                if i == checked.len() - n {
                    assert(checked[i] == tx);
                }
            }
        } else {
            let i = choose|i: int|
                checked.len() - (n - 1) <= i < checked.len() && !((#[trigger] checked[i]).cost
                    > budget || !grants_all(held, b.locks(checked[i].key)));
            assert(checked.len() - n <= i < checked.len());
            assert(!(checked[i].cost > budget || !grants_all(held, b.locks(checked[i].key))));
        }
        assert forall|i: int| 0 <= i < p.picked.len() implies checked.contains(
            #[trigger] p.picked[i],
        ) by {
            if i < before.picked.len() {
                assert(p.picked[i] == before.picked[i]);
            }
        }
    }
}

proof fn lemma_removed(w: World, txs: Seq<PriorityId>, n: int)
    requires
        increasing::<PriorityId>(w.s.checked),
        0 <= n <= txs.len(),
    ensures
        ({
            let after = w.remove_checked_upto(txs, n);
            &&& increasing::<PriorityId>(after.s.checked)
            &&& forall|id: PriorityId| #[trigger]
                after.s.checked.contains(id) <==> w.s.checked.contains(id) && !txs.take(n).contains(
                    id,
                )
            &&& after.s.bundles == w.s.bundles
            &&& after.b.actions.len() >= w.b.actions.len()
            &&& forall|i: int|
                0 <= i < w.b.actions.len() ==> #[trigger] after.b.actions[i] == w.b.actions[i]
        }),
    decreases n,
{
    if n > 0 {
        lemma_removed(w, txs, n - 1);
        let before = w.remove_checked_upto(txs, n - 1);
        let tx = txs[n - 1];
        if before.s.checked.contains(tx) {
            lemma_without_item::<PriorityId>(before.s.checked, tx);
        }
        let after = w.remove_checked_upto(txs, n);
        assert(txs.take(n) =~= txs.take(n - 1).push(tx));
        assert forall|id: PriorityId| #[trigger]
            after.s.checked.contains(id) <==> w.s.checked.contains(id) && !txs.take(n).contains(
                id,
            ) by {
            if txs.take(n - 1).contains(id) {
                let i = txs.take(n - 1).index_of(id);
                assert(txs.take(n)[i] == id);
            }
            assert(txs.take(n)[n - 1] == tx);
            if txs.take(n).contains(id) && id != tx {
                let i = txs.take(n).index_of(id);
                assert(txs.take(n - 1)[i] == id);
            }
        }
    } else {
        assert(txs.take(0) =~= Seq::empty());
    }
}

/// Transactions are sent exactly if one of those looked at can be started.
#[verifier::rlimit(50)]
pub proof fn lemma_transactions_sent_if_startable(a: AuctionWorld, budget: u64, worker: usize)
    requires
        increasing::<PriorityId>(a.w.s.checked),
    ensures
        transaction_startable(a, budget) ==> transactions_sent(
            a,
            budget,
            worker,
            a.try_transactions(budget, worker),
        ),
        !transaction_startable(a, budget) ==> a.try_transactions(budget, worker) == (
            a,
            budget,
            Seq::<KeyedTransactionMeta>::empty(),
        ),
{
    let checked = a.w.s.checked;
    let n = if checked.len() < SEARCH_LIMIT {
        checked.len() as int
    } else {
        SEARCH_LIMIT as int
    };
    lemma_pick_some(a.held, a.w.b, checked, budget, n);
    let p = pick_upto(a.held, a.w.b, checked, budget, n);
    if p.picked.len() == 0 {
        assert(!transaction_startable(a, budget));
    } else {
        let i = choose|i: int|
            checked.len() - n <= i < checked.len() && !((#[trigger] checked[i]).cost > budget
                || !grants_all(a.held, a.w.b.locks(checked[i].key)));
        assert(a.can_lock(checked[i].key));
        assert(transaction_startable(a, budget));
        let batch = picked_message(p.picked);
        let sent = World {
            b: a.w.b.scheduled(
                BatchModel {
                    worker,
                    transactions: batch,
                    max_working_slot: (a.w.b.progress.current_slot + 1) as u64,
                    flags: crate::bridge::EXECUTE_FLAGS,
                },
            ),
            ..a.w
        };
        let m = p.picked.len() as int;
        lemma_removed(sent, p.picked, m);
        assert(p.picked.take(m) =~= p.picked);
        let next = a.try_transactions(budget, worker).0;
        assert forall|id: PriorityId| #[trigger]
            next.w.s.checked.contains(id) <==> checked.contains(id) && !(exists|i: int|
                0 <= i < batch.len() && (#[trigger] batch[i]).meta == id) by {
            if p.picked.contains(id) {
                let k = p.picked.index_of(id);
                assert(batch[k].meta == id);
            }
            if exists|i: int| 0 <= i < batch.len() && (#[trigger] batch[i]).meta == id {
                let k = choose|i: int| 0 <= i < batch.len() && (#[trigger] batch[i]).meta == id;
                assert(p.picked[k] == id);
            }
        }
        assert(sent.b.actions[a.w.b.actions.len() as int] == (ActionModel::Schedule {
            batch: BatchModel {
                worker,
                transactions: batch,
                max_working_slot: (a.w.b.progress.current_slot + 1) as u64,
                flags: crate::bridge::EXECUTE_FLAGS,
            },
        }));
    }
}

proof fn lemma_dequeued(w: World, keys: Seq<u64>, n: int)
    ensures
        w.dequeue_upto(keys, n).s == w.s,
        w.dequeue_upto(keys, n).b.actions.len() >= w.b.actions.len(),
        forall|i: int|
            0 <= i < w.b.actions.len() ==> #[trigger] w.dequeue_upto(keys, n).b.actions[i]
                == w.b.actions[i],
    decreases n,
{
    if n > 0 {
        lemma_dequeued(w, keys, n - 1);
    }
}

proof fn lemma_bundle_tried(a: AuctionWorld, budget: u64, worker: usize)
    ensures
        bundle_startable(a, budget) ==> bundle_sent(
            a,
            budget,
            worker,
            a.try_bundle(budget, worker),
        ),
        !bundle_startable(a, budget) ==> a.try_bundle(budget, worker).2.len() == 0 && a.try_bundle(
            budget,
            worker,
        ).1 == budget && a.try_bundle(budget, worker).0.w == a.w,
{
    if bundle_startable(a, budget) {
        let bundle = a.w.s.bundles.last();
        let batch = crate::queues::bundle_message(bundle.keys, bundle.cost);
        let sent = World {
            b: a.w.b.scheduled(
                BatchModel {
                    worker,
                    transactions: batch,
                    max_working_slot: (a.w.b.progress.current_slot + 1) as u64,
                    flags: crate::bridge::EXECUTE_BUNDLE_FLAGS,
                },
            ),
            ..a.w
        };
        lemma_dequeued(sent, bundle.keys, bundle.keys.len() as int);
        assert(sent.b.actions[a.w.b.actions.len() as int] == (ActionModel::Schedule {
            batch: BatchModel {
                worker,
                transactions: batch,
                max_working_slot: (a.w.b.progress.current_slot + 1) as u64,
                flags: crate::bridge::EXECUTE_BUNDLE_FLAGS,
            },
        }));
    }
}

/// A bundle that was tried in vain changes nothing.
#[verifier::rlimit(50)]
proof fn lemma_bundle_in_vain(a: AuctionWorld, budget: u64, worker: usize)
    requires
        orderly(a.w),
        exact_holders(a),
        !bundle_startable(a, budget),
    ensures
        a.try_bundle(budget, worker).0 == a,
{
    lemma_bundle_tried(a, budget, worker);
    if a.w.s.bundles.len() > 0 {
        let bundles = a.w.s.bundles;
        let keys = bundles.last().keys;
        let last = bundles.len() - 1;
        assert(keys.no_duplicates() && bundle_keys(bundles).disjoint(a.w.s.executing.dom())) by {
            reveal(orderly);
            assert(bundles[last].keys.no_duplicates());
        }
        assert(crate::auction_engine::no_idle_entry(a.held)) by {
            reveal(exact_holders);
        }
        assert forall|i: int| 0 <= i < keys.len() implies crate::auction_engine::holds_nothing(
            a.held,
            #[trigger] keys[i],
            a.w.b.locks(keys[i]),
        ) by {
            assert(bundles[last].keys.contains(keys[i]));
            assert(bundle_keys(bundles).contains(keys[i]));
            let locks = a.w.b.locks(keys[i]);
            assert forall|j: int| 0 <= j < locks.len() implies !holders_at(
                a.held,
                (#[trigger] locks[j]).0,
            ).contains_key(keys[i]) by {
                reveal(exact_holders);
            }
        }
        lemma_rolled_back_restores(a.held, a.w.b, keys);
        assert(rolled_back(a.held, a.w.b, keys) == a.held);
    }
}

/// What waits is auctioned off by priority. A bundle goes first if its priority
/// is higher than that of every waiting transaction, and transactions go first
/// otherwise. What would go second goes only if the first cannot be started; and
/// nothing goes only if neither can.
#[verifier::rlimit(50)]
pub proof fn lemma_best_bid_first(a: AuctionWorld, budget: u64, worker: usize)
    requires
        orderly(a.w),
        exact_holders(a),
        increasing::<PriorityId>(a.w.s.checked),
        a.w.s.bundles.len() > 0 ==> a.w.s.bundles.last().keys.len() > 0,
    ensures
        ({
            let bundle_first = a.w.s.bundles.len() > 0 && forall|id: PriorityId| #[trigger]
                a.w.s.checked.contains(id) ==> id.priority < a.w.s.bundles.last().priority;
            let result = a.try_best(budget, worker);
            &&& bundle_startable(a, budget) && (bundle_first || !transaction_startable(a, budget))
                ==> bundle_sent(a, budget, worker, result)
            &&& transaction_startable(a, budget) && (!bundle_first || !bundle_startable(a, budget))
                ==> transactions_sent(a, budget, worker, result)
            &&& !bundle_startable(a, budget) && !transaction_startable(a, budget) ==> result == (
                a,
                budget,
                Seq::<KeyedTransactionMeta>::empty(),
            )
        }),
{
    let checked = a.w.s.checked;
    let bundles = a.w.s.bundles;
    if checked.len() > 0 && bundles.len() > 0 {
        assert(checked.contains(checked.last()));
        assert forall|id: PriorityId| #[trigger] checked.contains(id) implies id.priority
            <= checked.last().priority by {
            let i = checked.index_of(id);
            assert(checked[i] == id);
            if i < checked.len() - 1 {
                assert(<PriorityId as crate::ordered::Ordered>::before(
                    checked[i],
                    checked[checked.len() - 1],
                ));
            }
        }
    }
    lemma_transactions_sent_if_startable(a, budget, worker);
    lemma_bundle_tried(a, budget, worker);
    if !bundle_startable(a, budget) {
        lemma_bundle_in_vain(a, budget, worker);
    }
}

/// A bundle of higher priority than every waiting transaction is sent, if it can
/// be started.
pub proof fn lemma_bundle_outbids(a: AuctionWorld, budget: u64, worker: usize)
    requires
        bundle_startable(a, budget),
        a.w.s.bundles.last().keys.len() > 0,
        a.w.s.checked.len() > 0 ==> a.w.s.bundles.last().priority > a.w.s.checked.last().priority,
    ensures
        bundle_sent(a, budget, worker, a.try_best(budget, worker)),
{
    lemma_bundle_tried(a, budget, worker);
}

/// Transactions are sent if one can be started, unless a bundle waits whose
/// priority is higher than that of each: not even a bundle of the same priority
/// goes before them.
pub proof fn lemma_transactions_outbid(a: AuctionWorld, budget: u64, worker: usize)
    requires
        increasing::<PriorityId>(a.w.s.checked),
        transaction_startable(a, budget),
        a.w.s.bundles.len() > 0 ==> a.w.s.checked.last().priority >= a.w.s.bundles.last().priority,
    ensures
        transactions_sent(a, budget, worker, a.try_best(budget, worker)),
{
    lemma_transactions_sent_if_startable(a, budget, worker);
}

/// What is tried second is tried as if it were first.
pub(crate) proof fn lemma_second_try(a: AuctionWorld, budget: u64, worker: usize)
    requires
        orderly(a.w),
        exact_holders(a),
        increasing::<PriorityId>(a.w.s.checked),
        a.w.s.bundles.len() > 0 ==> a.w.s.bundles.last().keys.len() > 0,
        a.try_best(budget, worker).2.len() > 0,
    ensures
        a.try_best(budget, worker) == a.try_transactions(budget, worker) || a.try_best(
            budget,
            worker,
        ) == a.try_bundle(budget, worker),
{
    lemma_transactions_sent_if_startable(a, budget, worker);
    lemma_bundle_tried(a, budget, worker);
    if !bundle_startable(a, budget) {
        lemma_bundle_in_vain(a, budget, worker);
    }
}

/// Who holds an account once a transaction took its locks held it before, or is
/// that transaction.
proof fn lemma_new_holder(
    table: Holders,
    key: u64,
    locks: Seq<(Pubkey, bool)>,
    account: Pubkey,
    k: u64,
)
    requires
        holders_at(acquired_upto(table, key, locks, locks.len() as int), account).contains_key(k),
    ensures
        ({
            let after = holders_at(acquired_upto(table, key, locks, locks.len() as int), account);
            ||| holders_at(table, account).contains_key(k) && holders_at(table, account)[k]
                == after[k]
            ||| k == key && locks.contains((account, after[k]))
        }),
{
    lemma_acquired_at(table, key, locks, locks.len() as int, account);
    if exists|i: int| 0 <= i < locks.len() && (#[trigger] locks[i]).0 == account {
        let i = choose|i: int| 0 <= i < locks.len() && (#[trigger] locks[i]).0 == account;
        assert(locks[i].0 == account);
    }
}

/// Whether two transactions can execute side by side: neither writes an account
/// that the other names.
pub open spec fn side_by_side(b: BridgeModel, one: u64, other: u64) -> bool {
    forall|x: (Pubkey, bool), y: (Pubkey, bool)|
        #![trigger b.locks(one).contains(x), b.locks(other).contains(y)]
        b.locks(one).contains(x) && b.locks(other).contains(y) && x.0 == y.0 ==> !x.1 && !y.1
}

#[verifier::rlimit(50)]
proof fn lemma_bundle_acquires(held: Holders, b: BridgeModel, keys: Seq<u64>, n: int)
    requires
        0 <= n <= keys.len(),
        forall|i: int| 0 <= i < keys.len() ==> grants_all(held, b.locks(#[trigger] keys[i])),
        forall|i: int, j: int|
            #![trigger keys[i], keys[j]]
            0 <= i < j < keys.len() ==> side_by_side(b, keys[i], keys[j]),
    ensures
        match acquire_upto(held, b, keys, n) {
            Some(h) => forall|account: Pubkey, k: u64| #[trigger]
                holders_at(h, account).contains_key(k) ==> (holders_at(held, account).contains_key(
                    k,
                ) && holders_at(held, account)[k] == holders_at(h, account)[k]) || exists|i: int|
                    0 <= i < n && #[trigger] keys[i] == k && b.locks(keys[i]).contains(
                        (account, holders_at(h, account)[k]),
                    ),
            None => false,
        },
    decreases n,
{
    if n > 0 {
        lemma_bundle_acquires(held, b, keys, n - 1);
        let h = acquire_upto(held, b, keys, n - 1)->0;
        let key = keys[n - 1];
        let locks = b.locks(key);
        assert forall|i: int, k: u64|
            #![trigger holders_at(h, locks[i].0).contains_key(k)]
            0 <= i < locks.len() && holders_at(h, locks[i].0).contains_key(k) implies !locks[i].1
            && !holders_at(h, locks[i].0)[k] by {
            let account = locks[i].0;
            assert(locks.contains(locks[i]));
            assert(grants_all(held, b.locks(keys[n - 1])));
            lemma_auction_grants(held, locks);
            if holders_at(held, account).contains_key(k) && holders_at(held, account)[k]
                == holders_at(h, account)[k] {
                assert(holders_at(held, locks[i].0).contains_key(k));
            } else {
                let j = choose|j: int|
                    0 <= j < n - 1 && #[trigger] keys[j] == k && b.locks(keys[j]).contains(
                        (account, holders_at(h, account)[k]),
                    );
                assert(side_by_side(b, keys[j], keys[n - 1]));
            }
        }
        lemma_auction_grants(h, locks);
        let after = acquire_upto(held, b, keys, n)->0;
        assert forall|account: Pubkey, k: u64| #[trigger]
            holders_at(after, account).contains_key(k) implies (holders_at(
            held,
            account,
        ).contains_key(k) && holders_at(held, account)[k] == holders_at(after, account)[k])
            || exists|i: int|
            0 <= i < n && #[trigger] keys[i] == k && b.locks(keys[i]).contains(
                (account, holders_at(after, account)[k]),
            ) by {
            lemma_new_holder(h, key, locks, account, k);
            if holders_at(h, account).contains_key(k) && holders_at(h, account)[k] == holders_at(
                after,
                account,
            )[k] {
                if !(holders_at(held, account).contains_key(k) && holders_at(held, account)[k]
                    == holders_at(h, account)[k]) {
                    let j = choose|j: int|
                        0 <= j < n - 1 && #[trigger] keys[j] == k && b.locks(keys[j]).contains(
                            (account, holders_at(h, account)[k]),
                        );
                    assert(keys[j] == k);
                }
            } else {
                assert(keys[n - 1] == k);
            }
        }
    }
}

/// A bundle whose transactions conflict neither with what executes nor with one
/// another can be started, if it fits the budget.
pub proof fn lemma_harmless_bundle_startable(a: AuctionWorld, budget: u64)
    requires
        a.w.s.bundles.len() > 0,
        a.w.s.bundles.last().cost <= budget,
        a.can_lock_keys(a.w.s.bundles.last().keys),
        forall|i: int, j: int|
            #![trigger a.w.s.bundles.last().keys[i], a.w.s.bundles.last().keys[j]]
            0 <= i < j < a.w.s.bundles.last().keys.len() ==> side_by_side(
                a.w.b,
                a.w.s.bundles.last().keys[i],
                a.w.s.bundles.last().keys[j],
            ),
    ensures
        bundle_startable(a, budget),
{
    let keys = a.w.s.bundles.last().keys;
    assert forall|i: int| 0 <= i < keys.len() implies grants_all(
        a.held,
        a.w.b.locks(#[trigger] keys[i]),
    ) by {
        assert(a.can_lock(keys[i]));
    }
    lemma_bundle_acquires(a.held, a.w.b, keys, keys.len() as int);
}

/// Whether the batch scheduler can start the transaction of highest priority.
pub open spec fn top_startable(b: BatchWorld, budget: u64) -> bool {
    b.w.s.checked.len() > 0 && b.w.s.checked.last().cost <= budget && b.can_lock(
        b.w.s.checked.last().key,
    )
}

/// Whether the batch scheduler can start the bundle of highest priority.
pub open spec fn top_bundle_startable(b: BatchWorld, budget: u64) -> bool {
    &&& b.w.s.bundles.len() > 0
    &&& b.w.s.bundles.last().cost <= budget
    &&& forall|i: int|
        0 <= i < b.w.s.bundles.last().keys.len() ==> b.can_lock(
            #[trigger] b.w.s.bundles.last().keys[i],
        )
}

/// The batch scheduler starts the best that waits if it can, and waits for it
/// otherwise: a bundle if its priority is higher than that of every waiting
/// transaction, and the transaction of highest priority if not.
#[verifier::rlimit(50)]
pub proof fn lemma_batch_best_or_nothing(b: BatchWorld, budget: u64, worker: usize)
    requires
        increasing::<PriorityId>(b.w.s.checked),
    ensures
        ({
            let checked = b.w.s.checked;
            let bundles = b.w.s.bundles;
            let bundle_first = bundles.len() > 0 && forall|id: PriorityId| #[trigger]
                checked.contains(id) ==> id.priority < bundles.last().priority;
            let (next, left, batch) = b.try_best(budget, worker);
            let message = |flags: u16| ActionModel::Schedule {
                batch: BatchModel {
                    worker,
                    transactions: batch,
                    max_working_slot: (b.w.b.progress.current_slot + 1) as u64,
                    flags,
                },
            };
            &&& bundle_first && top_bundle_startable(b, budget) ==> {
                &&& batch.len() == bundles.last().keys.len()
                &&& forall|i: int|
                    0 <= i < batch.len() ==> (#[trigger] batch[i]).key == bundles.last().keys[i]
                        && batch[i].meta == (PriorityId {
                        priority: u64::MAX,
                        cost: if i == 0 {
                            bundles.last().cost
                        } else {
                            0
                        },
                        key: bundles.last().keys[i],
                    })
                &&& next.w.s.bundles == bundles.drop_last() && next.w.s.checked == checked
                &&& left == budget - bundles.last().cost
                &&& next.w.b.actions == b.w.b.actions.push(message(7))
            }
            &&& !bundle_first && top_startable(b, budget) ==> {
                &&& batch == seq![
                    KeyedTransactionMeta { key: checked.last().key, meta: checked.last() },
                ]
                &&& next.w.s.checked == checked.drop_last() && next.w.s.bundles == bundles
                &&& left == budget - checked.last().cost
                &&& next.w.b.actions == b.w.b.actions.push(message(1))
            }
            &&& bundle_first && !top_bundle_startable(b, budget) || !bundle_first && !top_startable(
                b,
                budget,
            ) ==> next == b && left == budget && batch.len() == 0
        }),
{
    let checked = b.w.s.checked;
    let bundles = b.w.s.bundles;
    if checked.len() > 0 {
        assert(checked.contains(checked.last()));
        assert forall|id: PriorityId| #[trigger] checked.contains(id) implies id.priority
            <= checked.last().priority by {
            let i = checked.index_of(id);
            assert(checked[i] == id);
            if i < checked.len() - 1 {
                assert(<PriorityId as crate::ordered::Ordered>::before(
                    checked[i],
                    checked[checked.len() - 1],
                ));
            }
        }
    }
    if bundles.len() > 0 {
        lemma_locked_same_world(b, bundles.last().keys, bundles.last().keys.len() as int);
    }
}

proof fn lemma_locked_same_world(b: BatchWorld, keys: Seq<u64>, n: int)
    ensures
        b.lock_upto(keys, n).w == b.w,
    decreases n,
{
    if n > 0 {
        lemma_locked_same_world(b, keys, n - 1);
    }
}

} // verus!
