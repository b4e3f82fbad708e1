//! What the answers of workers lead to.

use vstd::prelude::*;

use crate::auction_model::AuctionWorld;
use crate::batch_model::BatchWorld;
use crate::bridge::TxDecision;
use crate::events::CheckFailure;
use crate::ordered::{increasing, lemma_with_item, lemma_without_item};
use crate::pubkey::Pubkey;
use crate::scheduler_model::{CheckStep, CoreModel, World};
use crate::shared::PriorityId;
use crate::transaction::any_listed;
use crate::worker::{retryable, CheckResponse, ResponseModel};

verus! {

/// An answer without a fault: the transaction was parsed, its lookups were
/// resolved, and the status check found nothing.
pub open spec fn clean(rep: CheckResponse) -> bool {
    &&& rep.parsing_and_sanitization_flags % 2 == 0
    &&& (rep.resolve_flags / 4) % 2 == 0
    &&& rep.status_check_flags <= 3
}

/// A check passes exactly if the answer is without a fault; of several faults
/// the one in parsing counts first, then the one in the lookups.
pub proof fn lemma_only_clean_passes(rep: CheckResponse)
    ensures
        rep.failure() is None <==> clean(rep),
        rep.failure() == Some(CheckFailure::ParseOrSanitize)
            <==> rep.parsing_and_sanitization_flags % 2 == 1,
        rep.failure() == Some(CheckFailure::AccountResolution)
            <==> rep.parsing_and_sanitization_flags % 2 == 0 && (rep.resolve_flags / 4) % 2 == 1,
        rep.failure() == Some(CheckFailure::StatusCheck)
            <==> rep.parsing_and_sanitization_flags % 2 == 0 && (rep.resolve_flags / 4) % 2 == 0
            && rep.status_check_flags >= 4,
{
    let p = rep.parsing_and_sanitization_flags;
    let r = rep.resolve_flags;
    let s = rep.status_check_flags;
    assert((p & 1u8 != 0) == (p % 2 == 1)) by (bit_vector);
    assert((r & 4u8 != 0) == ((r / 4) % 2 == 1)) by (bit_vector);
    assert((s & !3u8 != 0) == (s >= 4)) by (bit_vector);
}

/// An answer makes sense if it names at most one fault; and, without one, if
/// every check was asked for and performed.
pub proof fn lemma_sensible_answers(rep: CheckResponse)
    ensures
        ({
            let parsing = rep.parsing_and_sanitization_flags % 2 == 1;
            let resolve = (rep.resolve_flags / 4) % 2 == 1;
            let status = rep.status_check_flags >= 4;
            rep.consistent() <==> {
                ||| parsing && !resolve && !status
                ||| !parsing && resolve && !status
                ||| !parsing && !resolve && status
                ||| clean(rep) && rep.fee_payer_balance_flags == 3 && rep.resolve_flags == 3
                    && rep.status_check_flags == 3
            }
        }),
{
    lemma_only_clean_passes(rep);
    let p = rep.parsing_and_sanitization_flags;
    let r = rep.resolve_flags;
    let s = rep.status_check_flags;
    assert((p & 1u8 != 0) == (p % 2 == 1)) by (bit_vector);
    assert((r & 4u8 != 0) == ((r / 4) % 2 == 1)) by (bit_vector);
    assert((s & !3u8 != 0) == (s >= 4)) by (bit_vector);
    assert(s <= 3 ==> ((s & 1u8 != 0 && s & 2u8 != 0) == (s == 3))) by (bit_vector);
}

/// A transaction is tried again if there was no bank, if one of its accounts was
/// in use, or if the block was full in one of five ways; and for no other
/// reason.
pub proof fn lemma_reasons_to_retry(reason: u8)
    ensures
        retryable(reason) <==> reason == 1 || reason == 64 || reason == 81 || reason == 84 || reason
            == 85 || reason == 92 || reason == 93,
{
}

/// Whether a check of a transaction is acted upon: it is neither executing nor
/// put off to the next slot.
pub open spec fn awaits_check(w: World, meta: PriorityId) -> bool {
    &&& w.b.transactions.contains_key(meta.key)
    &&& !w.s.executing.contains_key(meta.key)
    &&& !w.s.deferred.contains(meta.triple())
}

proof fn lemma_fault_removes(
    w: World,
    meta: PriorityId,
    rep: CheckResponse,
    resolved_keys: Option<Seq<Pubkey>>,
)
    requires
        increasing::<PriorityId>(w.s.checked),
        awaits_check(w, meta),
        !clean(rep),
    ensures
        ({
            let (next, step) = w.check_step(meta, rep, resolved_keys);
            &&& step == CheckStep::Done(TxDecision::Drop)
            &&& forall|id: PriorityId| #[trigger]
                next.s.checked.contains(id) <==> w.s.checked.contains(id) && id != meta
            &&& next.s.executing == w.s.executing
            &&& next.s.bundles == w.s.bundles
            &&& next.s.unchecked == w.s.unchecked
            &&& next.s.deferred == w.s.deferred
            &&& next.s.stats.check_err == w.s.stats.check_err.wrapping_add(1)
            &&& next.b.transactions == w.b.transactions
        }),
{
    lemma_only_clean_passes(rep);
    if w.s.checked.contains(meta) {
        lemma_without_item::<PriorityId>(w.s.checked, meta);
    }
}

/// A transaction whose check found a fault is let go of: it no longer waits to
/// be executed, and nothing else does that did not. The batch scheduler.
pub proof fn lemma_batch_fault_drops(
    b: BatchWorld,
    meta: PriorityId,
    rep: CheckResponse,
    resolved_keys: Option<Seq<Pubkey>>,
)
    requires
        increasing::<PriorityId>(b.w.s.checked),
        awaits_check(b.w, meta),
        !clean(rep),
    ensures
        ({
            let after = b.on_response(meta, ResponseModel::Check(rep, resolved_keys));
            &&& !after.w.b.transactions.contains_key(meta.key)
            &&& forall|id: PriorityId| #[trigger]
                after.w.s.checked.contains(id) <==> b.w.s.checked.contains(id) && id != meta
            &&& after.w.s.executing == b.w.s.executing
            &&& after.locks == b.locks
        }),
{
    reveal(BatchWorld::on_response);
    lemma_fault_removes(b.w, meta, rep, resolved_keys);
}

/// A transaction whose check found a fault is let go of: it no longer waits to
/// be executed, and nothing else does that did not. The auction scheduler.
pub proof fn lemma_auction_fault_drops(
    a: AuctionWorld,
    meta: PriorityId,
    rep: CheckResponse,
    resolved_keys: Option<Seq<Pubkey>>,
)
    requires
        increasing::<PriorityId>(a.w.s.checked),
        awaits_check(a.w, meta),
        !clean(rep),
    ensures
        ({
            let after = a.on_response(meta, ResponseModel::Check(rep, resolved_keys));
            &&& !after.w.b.transactions.contains_key(meta.key)
            &&& forall|id: PriorityId| #[trigger]
                after.w.s.checked.contains(id) <==> a.w.s.checked.contains(id) && id != meta
            &&& after.w.s.executing == a.w.s.executing
            &&& after.held == a.held
        }),
{
    reveal(AuctionWorld::on_response);
    lemma_fault_removes(a.w, meta, rep, resolved_keys);
}

/// A transaction that waits already keeps its place when it passes again.
#[verifier::rlimit(50)]
pub proof fn lemma_passing_again_keeps(
    b: BatchWorld,
    a: AuctionWorld,
    meta: PriorityId,
    rep: CheckResponse,
    resolved_keys: Option<Seq<Pubkey>>,
)
    requires
        clean(rep),
    ensures
        awaits_check(b.w, meta) && b.w.s.checked.contains(meta) ==> {
            let after = b.on_response(meta, ResponseModel::Check(rep, resolved_keys));
            &&& after.w.s.checked == b.w.s.checked
            &&& after.w.b.transactions.contains_key(meta.key)
            &&& after.w.b.transactions[meta.key].resolved == resolved_keys
        },
        awaits_check(a.w, meta) && a.w.s.checked.contains(meta) ==> {
            let after = a.on_response(meta, ResponseModel::Check(rep, resolved_keys));
            &&& after.w.s.checked == a.w.s.checked
            &&& after.w.b.transactions.contains_key(meta.key)
            &&& after.w.b.transactions[meta.key].resolved == resolved_keys
        },
{
    reveal(BatchWorld::on_response);
    reveal(AuctionWorld::on_response);
    lemma_only_clean_passes(rep);
}

/// A transaction that passes for the first time, and whose lookups resolved to
/// no filtered account, waits to be executed. The batch scheduler makes room
/// for it if need be: then the one of lowest priority is let go of, and no
/// other.
#[verifier::rlimit(50)]
pub proof fn lemma_batch_pass_waits(
    b: BatchWorld,
    meta: PriorityId,
    rep: CheckResponse,
    resolved_keys: Option<Seq<Pubkey>>,
)
    requires
        increasing::<PriorityId>(b.w.s.checked),
        awaits_check(b.w, meta),
        !b.w.s.checked.contains(meta),
        clean(rep),
        resolved_keys matches Some(keys) ==> forall|i: int|
            0 <= i < keys.len() ==> !b.w.s.filter_keys.contains(#[trigger] keys[i]),
    ensures
        ({
            let after = b.on_response(meta, ResponseModel::Check(rep, resolved_keys));
            let full = b.w.s.checked.len() + b.w.s.executing.dom().len() + b.w.s.deferred.len()
                >= b.w.s.checked_capacity && b.w.s.checked.len() > 0;
            &&& after.w.s.checked.contains(meta)
            &&& !full ==> forall|id: PriorityId| #[trigger]
                after.w.s.checked.contains(id) <==> b.w.s.checked.contains(id) || id == meta
            &&& full ==> forall|id: PriorityId| #[trigger]
                after.w.s.checked.contains(id) <==> (b.w.s.checked.contains(id) && id
                    != b.w.s.checked[0]) || id == meta
            &&& full && b.w.s.checked[0].key != meta.key ==> !after.w.b.transactions.contains_key(
                b.w.s.checked[0].key,
            )
            &&& (!full || b.w.s.checked[0].key != meta.key) ==> {
                &&& after.w.b.transactions.contains_key(meta.key)
                &&& after.w.b.transactions[meta.key].resolved == resolved_keys
            }
        }),
{
    reveal(BatchWorld::on_response);
    lemma_only_clean_passes(rep);
    assert(!(resolved_keys matches Some(keys) && any_listed(keys, b.w.s.filter_keys)));
    let checked = b.w.s.checked;
    lemma_with_item::<PriorityId>(checked, meta);
    if checked.len() > 0 {
        lemma_first_dropped(checked);
        lemma_with_item::<PriorityId>(checked.drop_first(), meta);
    }
}

proof fn lemma_first_dropped(checked: Seq<PriorityId>)
    requires
        increasing::<PriorityId>(checked),
        checked.len() > 0,
    ensures
        increasing::<PriorityId>(checked.drop_first()),
        forall|id: PriorityId| #[trigger]
            checked.drop_first().contains(id) <==> checked.contains(id) && id != checked[0],
{
    crate::ordered::lemma_increasing_subrange::<PriorityId>(checked, 1, checked.len() as int);
    assert forall|id: PriorityId| #[trigger]
        checked.drop_first().contains(id) <==> checked.contains(id) && id != checked[0] by {
        if checked.contains(id) && id != checked[0] {
            let i = checked.index_of(id);
            assert(checked.drop_first()[i - 1] == id);
        }
        if checked.drop_first().contains(id) {
            let i = checked.drop_first().index_of(id);
            assert(checked[i + 1] == id);
            if id == checked[0] {
                assert(<PriorityId as crate::ordered::Ordered>::before(checked[0], checked[i + 1]));
            }
        }
    }
}

/// A transaction whose lookups resolved to a filtered account is let go of when
/// it passes for the first time, and never waits to be executed.
#[verifier::rlimit(50)]
pub proof fn lemma_filtered_lookup_drops(
    b: BatchWorld,
    a: AuctionWorld,
    meta: PriorityId,
    rep: CheckResponse,
    keys: Seq<Pubkey>,
    i: int,
)
    requires
        clean(rep),
        0 <= i < keys.len(),
    ensures
        awaits_check(b.w, meta) && !b.w.s.checked.contains(meta) && b.w.s.filter_keys.contains(
            keys[i],
        ) ==> {
            let after = b.on_response(meta, ResponseModel::Check(rep, Some(keys)));
            &&& !after.w.b.transactions.contains_key(meta.key)
            &&& after.w.s.checked == b.w.s.checked
        },
        awaits_check(a.w, meta) && !a.w.s.checked.contains(meta) && a.w.s.filter_keys.contains(
            keys[i],
        ) ==> {
            let after = a.on_response(meta, ResponseModel::Check(rep, Some(keys)));
            &&& !after.w.b.transactions.contains_key(meta.key)
            &&& after.w.s.checked == a.w.s.checked
        },
{
    reveal(BatchWorld::on_response);
    reveal(AuctionWorld::on_response);
    lemma_only_clean_passes(rep);
}

/// An answer to a check of a transaction that meanwhile executes, or waits for
/// the next slot, changes no queue and lets go of nothing.
#[verifier::rlimit(50)]
pub proof fn lemma_late_check_ignored(
    b: BatchWorld,
    a: AuctionWorld,
    meta: PriorityId,
    rep: CheckResponse,
    resolved_keys: Option<Seq<Pubkey>>,
)
    ensures
        b.w.s.executing.contains_key(meta.key) || b.w.s.deferred.contains(meta.triple()) ==> {
            let after = b.on_response(meta, ResponseModel::Check(rep, resolved_keys));
            &&& after.w.s == b.w.s
            &&& after.w.b.actions == b.w.b.actions
            &&& after.w.b.transactions.dom() == b.w.b.transactions.dom()
            &&& after.locks == b.locks
        },
        a.w.s.executing.contains_key(meta.key) || a.w.s.deferred.contains(meta.triple()) ==> {
            let after = a.on_response(meta, ResponseModel::Check(rep, resolved_keys));
            &&& after.w.s == a.w.s
            &&& after.w.b.actions == a.w.b.actions
            &&& after.w.b.transactions.dom() == a.w.b.transactions.dom()
            &&& after.held == a.held
        },
{
    reveal(BatchWorld::on_response);
    reveal(AuctionWorld::on_response);
    let x = b.on_response(meta, ResponseModel::Check(rep, resolved_keys));
    assert(b.w.s.executing.contains_key(meta.key) || b.w.s.deferred.contains(meta.triple())
        ==> x.w.b.transactions.dom() =~= b.w.b.transactions.dom());
    let y = a.on_response(meta, ResponseModel::Check(rep, resolved_keys));
    assert(a.w.s.executing.contains_key(meta.key) || a.w.s.deferred.contains(meta.triple())
        ==> y.w.b.transactions.dom() =~= a.w.b.transactions.dom());
}

/// What an answer about a transaction that executes makes of it.
pub open spec fn ended(before: CoreModel, after: CoreModel, key: u64) -> bool {
    &&& after.executing == before.executing.remove(key)
    &&& after.in_flight_cus == before.in_flight_cus - before.executing[key]
}

/// When an execution ends, the transaction no longer executes, and its units are
/// no longer in flight. It is let go of, unless the reason is one to try again
/// for and it is of no bundle; then it waits: for the next slot if it was tried
/// in the present one and met more than a lock, and otherwise to be executed
/// again. The batch scheduler.
#[verifier::rlimit(50)]
pub proof fn lemma_batch_execution_ends(
    b: BatchWorld,
    meta: PriorityId,
    rep: crate::worker::ExecutionResponse,
)
    requires
        increasing::<PriorityId>(b.w.s.checked),
        b.w.b.transactions.contains_key(meta.key),
        b.w.s.executing.contains_key(meta.key),
        b.w.s.executing[meta.key] <= b.w.s.in_flight_cus,
        b.w.s.checked.len() + b.w.s.executing.dom().len() + b.w.s.deferred.len()
            <= b.w.s.checked_capacity,
        b.w.s.executing.dom().finite(),
    ensures
        ({
            let after = b.on_response(meta, ResponseModel::Execute(rep));
            let reason = rep.not_included_reason;
            let again = meta.priority != u64::MAX && (reason == 1 || reason == 64 || reason == 81
                || reason == 84 || reason == 85 || reason == 92 || reason == 93);
            &&& ended(b.w.s, after.w.s, meta.key)
            &&& after.w.b.transactions.contains_key(meta.key) <==> again
            &&& !again ==> after.w.s.checked == b.w.s.checked && after.w.s.deferred
                == b.w.s.deferred
            &&& again && rep.execution_slot == b.w.s.slot && reason != 64 ==> {
                &&& after.w.s.checked == b.w.s.checked
                &&& after.w.s.deferred.contains(meta.triple())
            }
            &&& again && (rep.execution_slot != b.w.s.slot || reason == 64) ==> {
                &&& after.w.s.checked.contains(meta)
                &&& after.w.s.deferred == b.w.s.deferred
            }
        }),
{
    reveal(BatchWorld::on_response);
    lemma_reasons_to_retry(rep.not_included_reason);
    let released = b.release(meta.key);
    lemma_executed_within_capacity(released.w, meta, rep);
}

/// When an execution ends, the transaction no longer executes, and its units are
/// no longer in flight. It is let go of, unless the reason is one to try again
/// for and it is of no bundle; then it waits: for the next slot if it was tried
/// in the present one and met more than a lock, and otherwise to be executed
/// again. The auction scheduler.
#[verifier::rlimit(50)]
pub proof fn lemma_auction_execution_ends(
    a: AuctionWorld,
    meta: PriorityId,
    rep: crate::worker::ExecutionResponse,
)
    requires
        increasing::<PriorityId>(a.w.s.checked),
        a.w.b.transactions.contains_key(meta.key),
        a.w.s.executing.contains_key(meta.key),
        a.w.s.executing[meta.key] <= a.w.s.in_flight_cus,
        a.w.s.checked.len() + a.w.s.executing.dom().len() + a.w.s.deferred.len()
            <= a.w.s.checked_capacity,
        a.w.s.executing.dom().finite(),
    ensures
        ({
            let after = a.on_response(meta, ResponseModel::Execute(rep));
            let reason = rep.not_included_reason;
            let again = meta.priority != u64::MAX && (reason == 1 || reason == 64 || reason == 81
                || reason == 84 || reason == 85 || reason == 92 || reason == 93);
            &&& ended(a.w.s, after.w.s, meta.key)
            &&& after.w.b.transactions.contains_key(meta.key) <==> again
            &&& !again ==> after.w.s.checked == a.w.s.checked && after.w.s.deferred
                == a.w.s.deferred
            &&& again && rep.execution_slot == a.w.s.slot && reason != 64 ==> {
                &&& after.w.s.checked == a.w.s.checked
                &&& after.w.s.deferred.contains(meta.triple())
            }
            &&& again && (rep.execution_slot != a.w.s.slot || reason == 64) ==> {
                &&& after.w.s.checked.contains(meta)
                &&& after.w.s.deferred == a.w.s.deferred
            }
        }),
{
    reveal(AuctionWorld::on_response);
    lemma_reasons_to_retry(rep.not_included_reason);
    let released = a.release(meta.key);
    lemma_executed_within_capacity(released.w, meta, rep);
}

#[verifier::rlimit(50)]
proof fn lemma_executed_within_capacity(
    w: World,
    meta: PriorityId,
    rep: crate::worker::ExecutionResponse,
)
    requires
        increasing::<PriorityId>(w.s.checked),
        w.s.executing.contains_key(meta.key),
        w.s.executing.dom().finite(),
        w.s.pending() <= w.s.checked_capacity,
        w.s.executing[meta.key] <= w.s.in_flight_cus,
    ensures
        ({
            let (after, decision) = w.executed(meta, rep);
            let reason = rep.not_included_reason;
            let again = meta.priority != u64::MAX && retryable(reason);
            &&& ended(w.s, after.s, meta.key)
            &&& after.b.transactions == w.b.transactions
            &&& decision == TxDecision::Keep <==> again
            &&& !again ==> after.s.checked == w.s.checked && after.s.deferred == w.s.deferred
            &&& again && rep.execution_slot == w.s.slot && reason != 64 ==> {
                &&& after.s.checked == w.s.checked
                &&& after.s.deferred.contains(meta.triple())
            }
            &&& again && (rep.execution_slot != w.s.slot || reason == 64) ==> {
                &&& after.s.checked.contains(meta)
                &&& after.s.deferred == w.s.deferred
            }
        }),
{
    let stopped = w.stop_executing(meta.key).report_execution(meta, rep.not_included_reason);
    lemma_with_item::<PriorityId>(stopped.s.checked, meta);
    assert(stopped.s.executing.dom() =~= w.s.executing.dom().remove(meta.key));
    let d = stopped.s.deferred.push(meta.triple());
    assert(d[stopped.s.deferred.len() as int] == meta.triple());
}

/// An execution that came back unprocessed leaves the transaction waiting to be
/// executed again, unless it is of a bundle: then it is let go of. One that was
/// only to be checked is left as it is.
#[verifier::rlimit(50)]
pub proof fn lemma_unprocessed_waits_again(b: BatchWorld, a: AuctionWorld, meta: PriorityId)
    ensures
        b.w.b.transactions.contains_key(meta.key) && b.w.s.executing.contains_key(meta.key)
            && increasing::<PriorityId>(b.w.s.checked) && b.w.s.executing[meta.key]
            <= b.w.s.in_flight_cus ==> {
            let after = b.on_response(meta, ResponseModel::Unprocessed);
            &&& ended(b.w.s, after.w.s, meta.key)
            &&& after.w.b.transactions.contains_key(meta.key) <==> meta.priority != u64::MAX
            &&& forall|id: PriorityId| #[trigger]
                after.w.s.checked.contains(id) <==> b.w.s.checked.contains(id) || (id == meta
                    && meta.priority != u64::MAX)
        },
        a.w.b.transactions.contains_key(meta.key) && a.w.s.executing.contains_key(meta.key)
            && increasing::<PriorityId>(a.w.s.checked) && a.w.s.executing[meta.key]
            <= a.w.s.in_flight_cus ==> {
            let after = a.on_response(meta, ResponseModel::Unprocessed);
            &&& ended(a.w.s, after.w.s, meta.key)
            &&& after.w.b.transactions.contains_key(meta.key) <==> meta.priority != u64::MAX
            &&& forall|id: PriorityId| #[trigger]
                after.w.s.checked.contains(id) <==> a.w.s.checked.contains(id) || (id == meta
                    && meta.priority != u64::MAX)
        },
        !b.w.s.executing.contains_key(meta.key) ==> b.on_response(meta, ResponseModel::Unprocessed)
            == b,
        !a.w.s.executing.contains_key(meta.key) ==> a.on_response(meta, ResponseModel::Unprocessed)
            == a,
{
    reveal(BatchWorld::on_response);
    reveal(AuctionWorld::on_response);
    if increasing::<PriorityId>(b.w.s.checked) {
        lemma_with_item::<PriorityId>(b.w.s.checked, meta);
    }
    if increasing::<PriorityId>(a.w.s.checked) {
        lemma_with_item::<PriorityId>(a.w.s.checked, meta);
    }
}

/// A transaction that passes for the first time, and whose lookups resolved to
/// no filtered account, waits to be executed if the auction scheduler finds a
/// place for it, and is let go of if not. It needs the accounts that its lookups
/// resolved to.
#[verifier::rlimit(50)]
pub proof fn lemma_auction_pass_placed(
    a: AuctionWorld,
    meta: PriorityId,
    rep: CheckResponse,
    resolved_keys: Option<Seq<Pubkey>>,
)
    requires
        increasing::<PriorityId>(a.w.s.checked),
        awaits_check(a.w, meta),
        !a.w.s.checked.contains(meta),
        clean(rep),
        resolved_keys matches Some(keys) ==> forall|i: int|
            0 <= i < keys.len() ==> !a.w.s.filter_keys.contains(#[trigger] keys[i]),
    ensures
        ({
            let after = a.on_response(meta, ResponseModel::Check(rep, resolved_keys));
            let full = a.w.s.checked.len() + a.w.s.executing.dom().len() + a.w.s.deferred.len()
                >= a.w.s.checked_capacity && a.w.s.checked.len() > 0;
            let lowest = a.w.s.checked[0];
            &&& after.held == a.held
            &&& !full ==> {
                &&& forall|id: PriorityId| #[trigger]
                    after.w.s.checked.contains(id) <==> a.w.s.checked.contains(id) || id == meta
                &&& after.w.b.transactions.contains_key(meta.key)
                &&& after.w.b.transactions[meta.key].resolved == resolved_keys
            }
            &&& full && meta.priority <= lowest.priority ==> {
                &&& after.w.s.checked == a.w.s.checked
                &&& !after.w.b.transactions.contains_key(meta.key)
            }
            &&& full && meta.priority > lowest.priority ==> {
                &&& forall|id: PriorityId| #[trigger]
                    after.w.s.checked.contains(id) <==> (a.w.s.checked.contains(id) && id != lowest)
                        || id == meta
                &&& lowest.key != meta.key ==> {
                    &&& !after.w.b.transactions.contains_key(lowest.key)
                    &&& after.w.b.transactions.contains_key(meta.key)
                    &&& after.w.b.transactions[meta.key].resolved == resolved_keys
                }
            }
        }),
{
    reveal(AuctionWorld::on_response);
    lemma_only_clean_passes(rep);
    assert(!(resolved_keys matches Some(keys) && any_listed(keys, a.w.s.filter_keys)));
    crate::arrival_laws::lemma_place_found(a.w, meta);
}

/// An answer to a check makes sense if it names at most one fault, and without
/// one if every check was performed; about a transaction that is unknown, that
/// executes or that waits for the next slot, any answer does. An answer that ends
/// an execution makes sense if it names the cost that was sent.
pub proof fn lemma_answers_that_make_sense(w: World, meta: PriorityId, response: ResponseModel)
    ensures
        response matches ResponseModel::Check(rep, _) ==> (w.accepts_answer(meta, response) <==> {
            let parsing = rep.parsing_and_sanitization_flags % 2 == 1;
            let resolve = (rep.resolve_flags / 4) % 2 == 1;
            let status = rep.status_check_flags >= 4;
            ||| !awaits_check(w, meta)
            ||| parsing && !resolve && !status
            ||| !parsing && resolve && !status
            ||| !parsing && !resolve && status
            ||| !parsing && rep.fee_payer_balance_flags == 3 && rep.resolve_flags == 3
                && rep.status_check_flags == 3
        }),
        !(response is Check) ==> (w.accepts_answer(meta, response) <==> {
            ||| !w.b.transactions.contains_key(meta.key)
            ||| !w.s.executing.contains_key(meta.key)
            ||| w.s.executing[meta.key] == meta.cost
        }),
{
    if let ResponseModel::Check(rep, _) = response {
        lemma_sensible_answers(rep);
    }
}

/// Answers about transactions that were let go of change nothing, nor do
/// executions of transactions that do not execute.
pub proof fn lemma_stray_answers_ignored(
    b: BatchWorld,
    a: AuctionWorld,
    meta: PriorityId,
    response: ResponseModel,
)
    ensures
        !b.w.b.transactions.contains_key(meta.key) || response is Execute
            && !b.w.s.executing.contains_key(meta.key) ==> b.on_response(meta, response) == b,
        !a.w.b.transactions.contains_key(meta.key) || response is Execute
            && !a.w.s.executing.contains_key(meta.key) ==> a.on_response(meta, response) == a,
{
    reveal(BatchWorld::on_response);
    reveal(AuctionWorld::on_response);
}

/// A transaction that is kept for another try makes another go only if more is
/// pending than there is capacity for; then it is the one of lowest priority
/// that waits to be executed.
#[verifier::rlimit(50)]
pub proof fn lemma_retry_within_capacity(
    w: World,
    meta: PriorityId,
    rep: crate::worker::ExecutionResponse,
)
    requires
        increasing::<PriorityId>(w.s.checked),
        w.s.executing.contains_key(meta.key),
        w.s.executing.dom().finite(),
        !w.s.checked.contains(meta),
        !w.s.deferred.contains(meta.triple()),
        meta.priority != u64::MAX,
        retryable(rep.not_included_reason),
    ensures
        ({
            let (after, decision) = w.executed(meta, rep);
            let pending = w.s.checked.len() + w.s.executing.dom().len() + w.s.deferred.len();
            let left = after.s.checked.len() + after.s.executing.dom().len() + after.s.deferred.len();
            &&& decision == TxDecision::Keep
            &&& pending <= w.s.checked_capacity ==> left == pending && after.b.transactions
                == w.b.transactions
            &&& pending > w.s.checked_capacity && w.s.checked.len() > 0 ==> left == pending - 1
        }),
{
    let stopped = w.stop_executing(meta.key).report_execution(meta, rep.not_included_reason);
    lemma_with_item::<PriorityId>(stopped.s.checked, meta);
    assert(stopped.s.executing.dom() =~= w.s.executing.dom().remove(meta.key));
    assert(w.s.executing.dom().contains(meta.key));
}

proof fn lemma_longer_answers(
    b: BatchWorld,
    a: AuctionWorld,
    responses: Seq<(PriorityId, ResponseModel)>,
    more: (PriorityId, ResponseModel),
    n: int,
)
    requires
        0 <= n <= responses.len(),
    ensures
        b.on_responses(responses.push(more), n) == b.on_responses(responses, n),
        a.on_responses(responses.push(more), n) == a.on_responses(responses, n),
    decreases n,
{
    if n > 0 {
        lemma_longer_answers(b, a, responses, more, n - 1);
        assert(responses.push(more)[n - 1] == responses[n - 1]);
    }
}

/// Answers are acted upon one after another, each of them, in the order in which
/// they came.
pub proof fn lemma_one_more_answer(
    b: BatchWorld,
    a: AuctionWorld,
    responses: Seq<(PriorityId, ResponseModel)>,
    more: (PriorityId, ResponseModel),
)
    ensures
        b.on_responses(responses.push(more), responses.len() as int + 1) == b.on_responses(
            responses,
            responses.len() as int,
        ).on_response(more.0, more.1),
        a.on_responses(responses.push(more), responses.len() as int + 1) == a.on_responses(
            responses,
            responses.len() as int,
        ).on_response(more.0, more.1),
        b.on_responses(responses, 0) == b,
        a.on_responses(responses, 0) == a,
{
    let n = responses.len() as int;
    lemma_longer_answers(b, a, responses, more, n);
    assert(responses.push(more)[n] == more);
}

} // verus!
