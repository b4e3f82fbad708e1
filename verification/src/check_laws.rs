//! How transactions are sent to be checked.

use vstd::prelude::*;

use crate::bridge::{ActionModel, BatchModel, KeyedTransactionMeta};
use crate::scheduler_model::{CoreModel, World};

verus! {

/// Whether nothing waits to be checked, neither for the first time nor again.
pub open spec fn nothing_to_check(s: CoreModel) -> bool {
    s.unchecked.len() == 0 && s.next_check().1 is None
}

/// Whether a message asks for checks: of the check worker, without a limit on
/// the slot, for at least one transaction and at most sixty-four.
pub open spec fn asks_for_checks(action: ActionModel) -> bool {
    action matches ActionModel::Schedule { batch } && {
        &&& batch.worker == 0
        &&& batch.flags == 14
        &&& batch.max_working_slot == u64::MAX
        &&& 1 <= batch.transactions.len() <= 64
        &&& forall|i: int|
            0 <= i < batch.transactions.len() ==> (#[trigger] batch.transactions[i]).key
                == batch.transactions[i].meta.key
    }
}

#[verifier::rlimit(50)]
proof fn lemma_filled(s: CoreModel, batch: Seq<KeyedTransactionMeta>, n: nat)
    requires
        forall|i: int| 0 <= i < batch.len() ==> (#[trigger] batch[i]).key == batch[i].meta.key,
    ensures
        ({
            let (after, filled) = s.fill_checks(batch, n);
            &&& batch.len() <= filled.len() <= batch.len() + n
            &&& filled.len() < batch.len() + n ==> nothing_to_check(after)
            &&& forall|i: int|
                0 <= i < filled.len() ==> (#[trigger] filled[i]).key == filled[i].meta.key
            &&& after.runtime == s.runtime
            &&& after.stats == s.stats
            &&& s.unchecked.len() >= after.unchecked.len()
            &&& s.unchecked.len() - after.unchecked.len() <= filled.len() - batch.len()
            &&& filled.len() > batch.len() || n == 0 || nothing_to_check(s)
            &&& after.checked == s.checked && after.executing == s.executing && after.bundles
                == s.bundles
        }),
    decreases n,
{
    if n > 0 {
        if s.unchecked.len() > 0 {
            crate::containers::lemma_greatest_exists(s.unchecked);
        }
        match s.next_check() {
            (next, Some(id)) => {
                let more = batch.push(KeyedTransactionMeta { key: id.key, meta: id });
                lemma_filled(next, more, (n - 1) as nat);
            },
            (next, None) => {
                assert(next.next_check().1 is None);
            },
        }
    }
}

#[verifier::rlimit(50)]
proof fn lemma_sent(w: World, n: nat)
    requires
        w.b.workers.len() > 0,
        n >= w.check_room(),
    ensures
        ({
            let after = w.send_checks(n);
            let sent = after.b.actions.len() - w.b.actions.len();
            &&& after.b.workers.len() == w.b.workers.len()
            &&& {
                ||| after.b.workers[0].len >= after.b.workers[0].capacity
                ||| after.b.workers[0].len >= w.s.runtime.max_check_batches
                ||| nothing_to_check(after.s)
            }
            &&& 0 <= sent
            &&& after.b.workers[0].len == w.b.workers[0].len + sent
            &&& forall|i: int|
                w.b.actions.len() <= i < after.b.actions.len() ==> asks_for_checks(
                    #[trigger] after.b.actions[i],
                )
            &&& forall|i: int|
                0 <= i < w.b.actions.len() ==> #[trigger] after.b.actions[i] == w.b.actions[i]
            &&& after.s.checked == w.s.checked && after.s.executing == w.s.executing
                && after.s.bundles == w.s.bundles
            &&& w.s.unchecked.len() >= after.s.unchecked.len()
            &&& w.s.unchecked.len() - after.s.unchecked.len() <= 64 * sent
            &&& after.s.runtime == w.s.runtime
            &&& after.s.stats == w.s.stats
            &&& after.b.transactions == w.b.transactions
            &&& forall|i: int|
                1 <= i < w.b.workers.len() ==> #[trigger] after.b.workers[i] == w.b.workers[i]
        }),
    decreases n,
{
    if n == 0 || w.check_room() == 0 || w.b.workers[0].len >= w.s.runtime.max_check_batches {
    } else {
        let (s, batch) = w.s.fill_checks(Seq::empty(), 64);
        lemma_filled(w.s, Seq::empty(), 64);
        if batch.len() > 0 {
            let message = BatchModel {
                worker: crate::bridge::CHECK_WORKER,
                transactions: batch,
                max_working_slot: u64::MAX,
                flags: crate::bridge::CHECK_FLAGS,
            };
            let next = World { s, b: w.b.scheduled(message) };
            assert(next.b.workers[0].len == w.b.workers[0].len + 1);
            assert(next.b.actions[w.b.actions.len() as int] == (ActionModel::Schedule {
                batch: message,
            }));
            assert(asks_for_checks(next.b.actions[w.b.actions.len() as int]));
            lemma_sent(next, (n - 1) as nat);
        }
    }
}

/// Checks are asked for as long as the check worker's queue is short and
/// anything waits to be checked: in the end its queue holds as many messages as
/// it is meant to, or as it can, or nothing waits to be checked. Nothing else is
/// sent, and nothing that waits to be executed is touched.
pub proof fn lemma_checks_asked_for(w: World)
    requires
        w.b.workers.len() > 0,
    ensures
        ({
            let after = w.schedule_checks();
            let sent = after.b.actions.len() - w.b.actions.len();
            &&& {
                ||| after.b.workers[0].len >= after.b.workers[0].capacity
                ||| after.b.workers[0].len >= w.s.runtime.max_check_batches
                ||| nothing_to_check(after.s)
            }
            &&& 0 <= sent
            &&& after.b.workers[0].len == w.b.workers[0].len + sent
            &&& forall|i: int|
                w.b.actions.len() <= i < after.b.actions.len() ==> asks_for_checks(
                    #[trigger] after.b.actions[i],
                )
            &&& forall|i: int|
                0 <= i < w.b.actions.len() ==> #[trigger] after.b.actions[i] == w.b.actions[i]
            &&& after.s.checked == w.s.checked && after.s.executing == w.s.executing
                && after.s.bundles == w.s.bundles
            &&& after.b.transactions == w.b.transactions
        }),
{
    lemma_sent(w, w.check_room());
}

/// Each first check that was asked for is counted, and no repeated one is.
pub proof fn lemma_first_checks_counted(w: World)
    requires
        w.b.workers.len() > 0,
        w.s.unchecked.len() <= u64::MAX,
    ensures
        ({
            let after = w.schedule_checks();
            let asked = w.s.unchecked.len() - after.s.unchecked.len();
            &&& 0 <= asked <= 64 * (after.b.actions.len() - w.b.actions.len())
            &&& after.s.stats.check_requested == w.s.stats.check_requested.wrapping_add(asked as u64)
        }),
{
    lemma_sent(w, w.check_room());
}

/// A queue that is long enough is left alone.
pub proof fn lemma_long_queue_left_alone(w: World)
    requires
        w.b.workers.len() > 0,
        w.b.workers[0].len >= w.s.runtime.max_check_batches,
    ensures
        w.schedule_checks().b == w.b,
        w.schedule_checks().s.unchecked == w.s.unchecked,
        w.schedule_checks().s.next_recheck == w.s.next_recheck,
{
}

/// A message is filled before it is sent: it holds sixty-four transactions,
/// unless nothing more waits to be checked.
pub proof fn lemma_messages_filled(s: CoreModel)
    ensures
        ({
            let (after, batch) = s.fill_checks(Seq::empty(), 64);
            &&& batch.len() <= 64
            &&& batch.len() < 64 ==> nothing_to_check(after)
        }),
{
    lemma_filled(s, Seq::empty(), 64);
}

/// A round of repeated checks starts with what waits at the highest priority. One
/// that is under way is not started again, and there is none without anything
/// that waits.
pub proof fn lemma_rechecks_start_at_top(w: World)
    ensures
        w.start_recheck().s.next_recheck == (match w.s.next_recheck {
            Some(under_way) => Some(under_way),
            None => if w.s.checked.len() > 0 {
                Some(w.s.checked[w.s.checked.len() - 1])
            } else {
                None
            },
        }),
        w.start_recheck().s.checked == w.s.checked,
        w.start_recheck().b == w.b,
{
}

} // verus!
