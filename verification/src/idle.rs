//! What a round without executions leaves alone.

use vstd::prelude::*;

use crate::auction_model::{auction_priority_of, bid_values, capped_score, AuctionWorld};
use crate::batch_model::{bundle_values, BatchWorld};
use crate::bridge::{BatchModel, KeyedTransactionMeta, CHECK_FLAGS, CHECK_WORKER};
use crate::costs::bundle_priority_of;
use crate::events::SlotStatsEvent;
use crate::frames::{
    lemma_discard_steady, lemma_expired_steady, lemma_queue_steady, lemma_report_bundle_steady,
    lemma_scan_bundle_steady, starts_nothing,
};
use crate::jito::UpdateModel;
use crate::ordered::{increasing, lemma_with_item, lemma_without_item, Ordered};
use crate::pubkey::Pubkey;
use crate::scheduler_model::{fresh_upto, CheckStep, CoreModel, World};
use crate::shared::{BundleModel, PriorityId};
use crate::worker::{
    floored, round_limit, CheckResponse, ExecutionResponse, PollModel, ResponseModel,
    ACCOUNT_IN_USE,
};

verus! {

/// What waits to be executed and what executes is the same.
pub open spec fn idle(a: World, b: World) -> bool {
    b.s.checked == a.s.checked && b.s.executing == a.s.executing
}

proof fn lemma_evict_idle(w: World, n: int)
    ensures
        idle(w, w.evict_unchecked_upto(n)),
    decreases n,
{
    if n > 0 {
        lemma_evict_idle(w, n - 1);
    }
}

proof fn lemma_tpu_idle(b: BatchWorld, tpu: Seq<(Seq<u8>, bool)>, n: int)
    ensures
        idle(b.w, b.on_tpu_upto(tpu, n).w),
    decreases n,
{
    reveal(BatchWorld::on_tpu);
    if n > 0 {
        lemma_tpu_idle(b, tpu, n - 1);
    }
}

pub(crate) proof fn lemma_drain_tpu_idle(b: BatchWorld, tpu: Seq<(Seq<u8>, bool)>, max_count: int)
    ensures
        idle(b.w, b.drain_tpu(tpu, max_count).w),
{
    let additional = if tpu.len() < max_count {
        tpu.len() as int
    } else {
        max_count
    };
    let room = b.w.make_room(additional as nat);
    lemma_make_room_idle(b.w, additional as nat);
    lemma_tpu_idle(BatchWorld { w: room, ..b }, tpu, additional);
}

pub(crate) proof fn lemma_drop_expired_idle(w: World, now: u64)
    ensures
        idle(w, w.drop_expired_bundles(now)),
{
    let n = w.s.bundles.len() as int;
    let kept = World {
        s: CoreModel {
            bundles: fresh_upto(w.s.bundles, now, w.s.runtime.bundle_expiry, n),
            ..w.s
        },
        ..w
    };
    lemma_expired_steady(kept, w.s.bundles, now, n);
}

proof fn lemma_store_bundle_idle(w: World, bundle: BundleModel)
    ensures
        idle(w, w.store_bundle(bundle)),
{
    let n = bundle.keys.len() as int;
    let action = w.bundle_ingest(bundle.keys);
    let reported = w.report_bundle_upto(bundle.keys, bundle.priority, action, n);
    lemma_report_bundle_steady(w, bundle.keys, bundle.priority, action, n);
    let evicted = reported.evict_bundle();
    if reported.s.bundles.len() > 0 {
        let keys = reported.s.bundles.first().keys;
        lemma_discard_steady(
            World {
                s: CoreModel { bundles: reported.s.bundles.drop_first(), ..reported.s },
                ..reported
            },
            keys,
            keys.len() as int,
        );
    }
    lemma_queue_steady(evicted, bundle.keys, n);
}

pub(crate) proof fn lemma_updates_idle(b: BatchWorld, updates: Seq<UpdateModel>, now: u64, n: int)
    ensures
        idle(b.w, b.on_updates(updates, now, n).w),
    decreases n,
{
    reveal(BatchWorld::on_update);
    if n > 0 {
        lemma_updates_idle(b, updates, now, n - 1);
        let before = b.on_updates(updates, now, n - 1);
        match updates[n - 1] {
            UpdateModel::Bundle(bundle) => {
                let values = bundle_values(before.w.b.runtime, bundle);
                lemma_scan_bundle_steady(before.w, bundle, values);
                match before.w.scan_bundle(bundle, values) {
                    (w, Some((keys, cost, value))) => {
                        lemma_store_bundle_idle(
                            w,
                            BundleModel {
                                priority: bundle_priority_of(cost, value),
                                cost,
                                received_at: now,
                                keys,
                            },
                        );
                    },
                    (_, None) => {},
                }
            },
            _ => {},
        }
    }
}

proof fn lemma_fill_idle(s: CoreModel, batch: Seq<KeyedTransactionMeta>, n: nat)
    ensures
        s.fill_checks(batch, n).0.checked == s.checked,
        s.fill_checks(batch, n).0.executing == s.executing,
    decreases n,
{
    if n > 0 {
        match s.next_check() {
            (next, Some(id)) => {
                lemma_fill_idle(
                    next,
                    batch.push(KeyedTransactionMeta { key: id.key, meta: id }),
                    (n - 1) as nat,
                );
            },
            (_, None) => {},
        }
    }
}

proof fn lemma_send_checks_idle(w: World, n: nat)
    ensures
        idle(w, w.send_checks(n)),
    decreases n,
{
    if !(n == 0 || w.check_room() == 0 || w.b.workers[0].len >= w.s.runtime.max_check_batches) {
        let (s, batch) = w.s.fill_checks(Seq::empty(), 64);
        lemma_fill_idle(w.s, Seq::empty(), 64);
        if batch.len() > 0 {
            lemma_send_checks_idle(
                World {
                    s,
                    b: w.b.scheduled(
                        BatchModel {
                            worker: CHECK_WORKER,
                            transactions: batch,
                            max_working_slot: u64::MAX,
                            flags: CHECK_FLAGS,
                        },
                    ),
                },
                (n - 1) as nat,
            );
        }
    }
}

pub(crate) proof fn lemma_schedule_checks_idle(w: World)
    ensures
        idle(w, w.schedule_checks()),
{
    lemma_send_checks_idle(w, w.check_room());
}

proof fn lemma_restore_idle(w: World, deferred: Seq<(u64, u64, u64)>, n: int)
    requires
        increasing::<PriorityId>(w.s.checked),
    ensures
        ({
            let after = w.restore_upto(deferred, n).s;
            &&& after.executing == w.s.executing
            &&& increasing::<PriorityId>(after.checked)
            &&& forall|id: PriorityId| #[trigger]
                w.s.checked.contains(id) ==> after.checked.contains(id)
        }),
    decreases n,
{
    if n > 0 {
        lemma_restore_idle(w, deferred, n - 1);
        lemma_with_item::<PriorityId>(
            w.restore_upto(deferred, n - 1).s.checked,
            PriorityId::of_triple(deferred[n - 1]),
        );
    }
}

/// Moving on to another slot starts nothing, and what waited to be executed
/// still does.
pub(crate) proof fn lemma_roll_idle(w: World)
    requires
        increasing::<PriorityId>(w.s.checked),
    ensures
        ({
            let after = w.roll_slot().s;
            &&& after.executing == w.s.executing
            &&& increasing::<PriorityId>(after.checked)
            &&& forall|id: PriorityId| #[trigger]
                w.s.checked.contains(id) ==> after.checked.contains(id)
        }),
{
    if w.b.progress.current_slot != w.s.slot {
        let reported = w.report_roll();
        let moved = World {
            s: CoreModel {
                slot: w.b.progress.current_slot,
                stats: SlotStatsEvent {
                    was_leader_ready: false,
                    ..reported.s.stats
                },
                deferred: Seq::empty(),
                ..reported.s
            },
            ..reported
        };
        assert(moved.s.checked == w.s.checked);
        lemma_restore_idle(moved, reported.s.deferred, reported.s.deferred.len() as int);
    }
}

/// The transaction of lowest priority that waits to be executed, while there is
/// no room for more.
pub open spec fn evictable(s: CoreModel, id: PriorityId) -> bool {
    &&& s.checked.len() > 0 && s.checked.first() == id
    &&& s.pending() >= s.checked_capacity
}

/// Whether one of the first `n` answers is about this transaction, or came when
/// the transaction was the first to make room.
pub open spec fn answered_or_evicted(
    b: BatchWorld,
    responses: Seq<(PriorityId, ResponseModel)>,
    n: int,
    id: PriorityId,
) -> bool {
    exists|i: int|
        0 <= i < n && (responses[i].0.key == id.key || evictable(
            (#[trigger] b.on_responses(responses, i)).w.s,
            id,
        ))
}

/// Between `b` and `after`, nothing was sent to be executed, and nothing started
/// to execute. What waited to be executed still does, unless a worker's answer
/// was about it, or it was the one of lowest priority when an answer came and
/// there was no room for more.
pub open spec fn idle_round(b: BatchWorld, after: BatchWorld, input: PollModel) -> bool {
    &&& starts_nothing(b.w.b.actions, after.w.b.actions)
    &&& after.w.s.executing.dom().subset_of(b.w.s.executing.dom())
    &&& forall|id: PriorityId| #[trigger]
        b.w.s.checked.contains(id) ==> after.w.s.checked.contains(id) || answered_or_evicted(
            b.check_slot_roll(input.progress, input.now),
            input.responses,
            input.responses.len() as int,
            id,
        )
}

/// Of two sequences in order, the one that holds more has the lower first item.
proof fn lemma_first_of_more(less: Seq<PriorityId>, more: Seq<PriorityId>, id: PriorityId)
    requires
        increasing::<PriorityId>(less),
        increasing::<PriorityId>(more),
        forall|x: PriorityId| #[trigger] less.contains(x) ==> more.contains(x),
        less.contains(id),
        more.len() > 0,
        more.first() == id,
    ensures
        less.len() > 0,
        less.first() == id,
{
    let i = less.index_of(id);
    let first = less.first();
    assert(less.contains(less[0]));
    if i > 0 {
        assert(PriorityId::before(less[0], less[i]));
        let j = more.index_of(first);
        assert(more[j] == first);
        if j > 0 {
            assert(PriorityId::before(more[0], more[j]));
        }
        PriorityId::before_irreflexive(id);
        PriorityId::before_transitive(id, first, id);
    }
}

/// What a step may do to what waits and what executes: nothing starts, and only
/// this transaction and the one that makes room stop to wait.
pub open spec fn settles_one(a: CoreModel, b: CoreModel, key: u64) -> bool {
    &&& increasing::<PriorityId>(b.checked)
    &&& b.executing.dom().subset_of(a.executing.dom())
    &&& b.executing.dom().finite()
    &&& forall|id: PriorityId| #[trigger]
        a.checked.contains(id) ==> b.checked.contains(id) || id.key == key || evictable(a, id)
}

proof fn lemma_check_settles(
    b: BatchWorld,
    meta: PriorityId,
    rep: CheckResponse,
    resolved_keys: Option<Seq<Pubkey>>,
)
    requires
        increasing::<PriorityId>(b.w.s.checked),
        b.w.s.executing.dom().finite(),
    ensures
        settles_one(b.w.s, b.on_check(meta, rep, resolved_keys).0.w.s, meta.key),
{
    let checked = b.w.s.checked;
    lemma_without_item::<PriorityId>(checked, meta);
    match b.w.check_step(meta, rep, resolved_keys) {
        (_, CheckStep::Done(_)) => {},
        (w, CheckStep::Admit) => {
            assert(w == b.w);
            let rest = checked.drop_first();
            if checked.len() > 0 {
                assert forall|i: int, j: int|
                    #![trigger rest[i], rest[j]]
                    0 <= i < j < rest.len() implies PriorityId::before(rest[i], rest[j]) by {
                    assert(rest[i] == checked[i + 1] && rest[j] == checked[j + 1]);
                }
                assert forall|id: PriorityId| #[trigger] checked.contains(id) implies rest.contains(
                    id,
                ) || id == checked.first() by {
                    let i = checked.index_of(id);
                    if i > 0 {
                        assert(rest[i - 1] == id);
                    }
                }
                lemma_with_item::<PriorityId>(rest, meta);
            }
            lemma_with_item::<PriorityId>(checked, meta);
        },
    }
}

proof fn lemma_stop_settles(s: CoreModel, key: u64)
    requires
        s.executing.dom().finite(),
    ensures
        s.execution_stopped(key).executing.dom().subset_of(s.executing.dom()),
        s.execution_stopped(key).executing.dom().finite(),
        s.execution_stopped(key).checked == s.checked,
        s.execution_stopped(key).checked_capacity == s.checked_capacity,
        s.execution_stopped(key).deferred == s.deferred,
        s.executing.contains_key(key) ==> s.execution_stopped(key).executing.dom().len() + 1
            == s.executing.dom().len(),
{
    assert(s.executing.remove(key).dom() =~= s.executing.dom().remove(key));
}

proof fn lemma_executed_settles(w: World, meta: PriorityId, rep: ExecutionResponse)
    requires
        increasing::<PriorityId>(w.s.checked),
        w.s.executing.dom().finite(),
        w.s.executing.contains_key(meta.key),
    ensures
        settles_one(w.s, w.executed(meta, rep).0.s, meta.key),
{
    let checked = w.s.checked;
    lemma_stop_settles(w.s, meta.key);
    let stopped = w.stop_executing(meta.key).report_execution(meta, rep.not_included_reason);
    lemma_with_item::<PriorityId>(checked, meta);
    let kept = if rep.execution_slot == stopped.s.slot && rep.not_included_reason
        != ACCOUNT_IN_USE {
        stopped.defer(meta)
    } else {
        stopped.insert_checked(meta)
    };
    assert(kept.s.pending() <= w.s.pending());
    let all = kept.s.checked;
    let rest = all.drop_first();
    if all.len() > 0 {
        assert forall|i: int, j: int|
            #![trigger rest[i], rest[j]]
            0 <= i < j < rest.len() implies PriorityId::before(rest[i], rest[j]) by {
            assert(rest[i] == all[i + 1] && rest[j] == all[j + 1]);
        }
        assert forall|id: PriorityId| #[trigger] checked.contains(id) implies rest.contains(id) || (
        checked.len() > 0 && checked.first() == id) by {
            assert(all.contains(id));
            let i = all.index_of(id);
            if i > 0 {
                assert(rest[i - 1] == id);
            } else {
                lemma_first_of_more(checked, all, id);
            }
        }
    }
}

proof fn lemma_response_settles(b: BatchWorld, meta: PriorityId, response: ResponseModel)
    requires
        increasing::<PriorityId>(b.w.s.checked),
        b.w.s.executing.dom().finite(),
    ensures
        settles_one(b.w.s, b.on_response(meta, response).w.s, meta.key),
{
    reveal(BatchWorld::on_response);
    match response {
        ResponseModel::Unprocessed => {
            lemma_stop_settles(b.w.s, meta.key);
            lemma_with_item::<PriorityId>(b.w.s.checked, meta);
        },
        ResponseModel::Execute(rep) => {
            if b.w.s.executing.contains_key(meta.key) {
                lemma_executed_settles(b.w, meta, rep);
            }
        },
        ResponseModel::Check(rep, resolved_keys) => {
            lemma_check_settles(b, meta, rep, resolved_keys);
        },
    }
}

/// Answers start nothing; and what waited to be executed still does, unless an
/// answer was about it or it made room.
pub(crate) proof fn lemma_responses_settle(
    b: BatchWorld,
    responses: Seq<(PriorityId, ResponseModel)>,
    n: int,
)
    requires
        increasing::<PriorityId>(b.w.s.checked),
        b.w.s.executing.dom().finite(),
        0 <= n <= responses.len(),
    ensures
        ({
            let after = b.on_responses(responses, n).w.s;
            &&& increasing::<PriorityId>(after.checked)
            &&& after.executing.dom().subset_of(b.w.s.executing.dom())
            &&& after.executing.dom().finite()
            &&& forall|id: PriorityId| #[trigger]
                b.w.s.checked.contains(id) ==> after.checked.contains(id) || answered_or_evicted(
                    b,
                    responses,
                    n,
                    id,
                )
        }),
    decreases n,
{
    if n > 0 {
        lemma_responses_settle(b, responses, n - 1);
        let before = b.on_responses(responses, n - 1);
        lemma_response_settles(before, responses[n - 1].0, responses[n - 1].1);
        let after = b.on_responses(responses, n).w.s;
        assert forall|id: PriorityId| #[trigger] b.w.s.checked.contains(id) implies after.checked.contains(
            id,
        ) || answered_or_evicted(b, responses, n, id) by {
            if answered_or_evicted(b, responses, n - 1, id) {
                let i = choose|i: int|
                    0 <= i < n - 1 && (responses[i].0.key == id.key || evictable(
                        (#[trigger] b.on_responses(responses, i)).w.s,
                        id,
                    ));
                assert(b.on_responses(responses, i) == b.on_responses(responses, i));
            } else {
                assert(before.w.s.checked.contains(id));
            }
        }
    }
}

/// What taking in a transaction may do: nothing starts, and only the one that
/// makes room stops to wait.
pub open spec fn displaces_one(a: CoreModel, b: CoreModel) -> bool {
    &&& increasing::<PriorityId>(b.checked)
    &&& b.executing == a.executing
    &&& forall|id: PriorityId| #[trigger]
        a.checked.contains(id) ==> b.checked.contains(id) || evictable(a, id)
}

proof fn lemma_placed_displaces(w: World, meta: PriorityId)
    requires
        increasing::<PriorityId>(w.s.checked),
    ensures
        displaces_one(w.s, w.insert_with_capacity(meta).0.s),
{
    let checked = w.s.checked;
    let rest = checked.drop_first();
    if checked.len() > 0 {
        assert forall|i: int, j: int|
            #![trigger rest[i], rest[j]]
            0 <= i < j < rest.len() implies PriorityId::before(rest[i], rest[j]) by {
            assert(rest[i] == checked[i + 1] && rest[j] == checked[j + 1]);
        }
        assert forall|id: PriorityId| #[trigger] checked.contains(id) implies rest.contains(id)
            || id == checked.first() by {
            let i = checked.index_of(id);
            if i > 0 {
                assert(rest[i - 1] == id);
            }
        }
        lemma_with_item::<PriorityId>(rest, meta);
    }
    lemma_with_item::<PriorityId>(checked, meta);
}

/// Whether one of the first `n` answers is about this transaction, or came when
/// the transaction was the first to make room.
pub open spec fn auction_answered_or_evicted(
    a: AuctionWorld,
    responses: Seq<(PriorityId, ResponseModel)>,
    n: int,
    id: PriorityId,
) -> bool {
    exists|i: int|
        0 <= i < n && (responses[i].0.key == id.key || evictable(
            (#[trigger] a.on_responses(responses, i)).w.s,
            id,
        ))
}

/// Whether one of the first `n` transactions of the validator came when this one
/// was the first to make room.
pub open spec fn evicted_by_tpu(
    a: AuctionWorld,
    tpu: Seq<(Seq<u8>, bool)>,
    scores: Seq<u64>,
    n: int,
    id: PriorityId,
) -> bool {
    exists|i: int| 0 <= i < n && evictable((#[trigger] a.on_tpu_upto(tpu, scores, i)).w.s, id)
}

/// Whether one of the first `n` updates of the block engine came when this
/// transaction was the first to make room.
pub open spec fn evicted_by_updates(
    a: AuctionWorld,
    updates: Seq<UpdateModel>,
    scores: Seq<Seq<u64>>,
    now: u64,
    n: int,
    id: PriorityId,
) -> bool {
    exists|i: int|
        0 <= i < n && evictable((#[trigger] a.on_updates(updates, scores, now, i)).w.s, id)
}

/// Whether something in a round of the auction is about a transaction that
/// waits: an answer, or an arrival for which it was the first to make room.
pub open spec fn touched_in_round(
    a: AuctionWorld,
    input: PollModel,
    tpu_scores: Seq<u64>,
    update_scores: Seq<Seq<u64>>,
    id: PriorityId,
) -> bool {
    let rolled = a.check_slot_roll(input.progress, input.now);
    let answered = rolled.on_responses(input.responses, input.responses.len() as int);
    let limit = round_limit(answered.is_leader());
    let taken = if input.tpu.len() < limit {
        input.tpu.len() as int
    } else {
        limit
    };
    let room = AuctionWorld { w: answered.w.make_room(taken as nat), ..answered };
    let drained = room.on_tpu_upto(input.tpu, tpu_scores, taken);
    let fresh = AuctionWorld { w: drained.w.drop_expired_bundles(input.now), ..drained };
    ||| auction_answered_or_evicted(rolled, input.responses, input.responses.len() as int, id)
    ||| evicted_by_tpu(room, input.tpu, tpu_scores, taken, id)
    ||| evicted_by_updates(
        fresh,
        input.updates,
        update_scores,
        input.now,
        input.updates.len() as int,
        id,
    )
}

/// Between `a` and `after`, nothing was sent to be executed, and nothing started
/// to execute. What waited to be executed still does, unless something in the
/// round was about it.
pub open spec fn auction_idle_round(
    a: AuctionWorld,
    after: AuctionWorld,
    input: PollModel,
    tpu_scores: Seq<u64>,
    update_scores: Seq<Seq<u64>>,
) -> bool {
    &&& starts_nothing(a.w.b.actions, after.w.b.actions)
    &&& after.w.s.executing.dom().subset_of(a.w.s.executing.dom())
    &&& forall|id: PriorityId| #[trigger]
        a.w.s.checked.contains(id) ==> after.w.s.checked.contains(id) || touched_in_round(
            a,
            input,
            tpu_scores,
            update_scores,
            id,
        )
}

/// Making room for transactions leaves alone what waits to be executed.
pub(crate) proof fn lemma_make_room_idle(w: World, additional: nat)
    ensures
        idle(w, w.make_room(additional)),
{
    lemma_evict_idle(
        w,
        floored((w.s.unchecked.len() + additional) as int, w.s.unchecked_capacity as int),
    );
}

proof fn lemma_tpu_displaces(a: AuctionWorld, packet: Seq<u8>, simple_vote: bool, score: u64)
    requires
        increasing::<PriorityId>(a.w.s.checked),
    ensures
        displaces_one(a.w.s, a.on_tpu(packet, simple_vote, score).w.s),
{
    reveal(AuctionWorld::on_tpu);
    match a.w.b.received(packet, simple_vote) {
        (b, Some(key)) => match auction_priority_of(a.w.b.runtime, packet, score, a.min_score) {
            Some((priority, cost)) => {
                lemma_placed_displaces(World { b, ..a.w }, PriorityId { priority, cost, key });
            },
            None => {},
        },
        (_, None) => {},
    }
}

/// In the auction, transactions of the validator start nothing; and what waited
/// to be executed still does, unless it made room.
pub(crate) proof fn lemma_auction_tpu_settle(
    a: AuctionWorld,
    tpu: Seq<(Seq<u8>, bool)>,
    scores: Seq<u64>,
    n: int,
)
    requires
        increasing::<PriorityId>(a.w.s.checked),
        0 <= n,
    ensures
        ({
            let after = a.on_tpu_upto(tpu, scores, n).w.s;
            &&& increasing::<PriorityId>(after.checked)
            &&& after.executing == a.w.s.executing
            &&& forall|id: PriorityId| #[trigger]
                a.w.s.checked.contains(id) ==> after.checked.contains(id) || evicted_by_tpu(
                    a,
                    tpu,
                    scores,
                    n,
                    id,
                )
        }),
    decreases n,
{
    if n > 0 {
        lemma_auction_tpu_settle(a, tpu, scores, n - 1);
        let before = a.on_tpu_upto(tpu, scores, n - 1);
        lemma_tpu_displaces(before, tpu[n - 1].0, tpu[n - 1].1, scores[n - 1]);
        let after = a.on_tpu_upto(tpu, scores, n).w.s;
        assert forall|id: PriorityId| #[trigger] a.w.s.checked.contains(id) implies after.checked.contains(
            id,
        ) || evicted_by_tpu(a, tpu, scores, n, id) by {
            if evicted_by_tpu(a, tpu, scores, n - 1, id) {
                let i = choose|i: int|
                    0 <= i < n - 1 && evictable((#[trigger] a.on_tpu_upto(tpu, scores, i)).w.s, id);
                assert(a.on_tpu_upto(tpu, scores, i) == a.on_tpu_upto(tpu, scores, i));
            } else {
                assert(before.w.s.checked.contains(id));
            }
        }
    }
}

proof fn lemma_update_displaces(a: AuctionWorld, update: UpdateModel, scores: Seq<u64>, now: u64)
    requires
        increasing::<PriorityId>(a.w.s.checked),
    ensures
        displaces_one(a.w.s, a.on_update(update, scores, now).w.s),
{
    reveal(AuctionWorld::on_update);
    match update {
        UpdateModel::Bundle(bundle) => {
            let values = bid_values(a.w.b.runtime, bundle, scores, a.min_score);
            lemma_scan_bundle_steady(a.w, bundle, values);
            match a.w.scan_bundle(bundle, values) {
                (w, Some((keys, cost, value))) => {
                    lemma_store_bundle_idle(
                        w,
                        BundleModel { priority: capped_score(value), cost, received_at: now, keys },
                    );
                },
                (_, None) => {},
            }
        },
        UpdateModel::Packet(packet) => match a.w.b.inserted(packet) {
            (b, Some(key)) => match auction_priority_of(
                a.w.b.runtime,
                packet,
                scores[0],
                a.min_score,
            ) {
                Some((priority, cost)) => {
                    lemma_placed_displaces(World { b, ..a.w }, PriorityId { priority, cost, key });
                },
                None => {},
            },
            (_, None) => {},
        },
        _ => {},
    }
}

/// In the auction, what the block engine sends starts nothing; and what waited
/// to be executed still does, unless it made room.
pub(crate) proof fn lemma_auction_updates_settle(
    a: AuctionWorld,
    updates: Seq<UpdateModel>,
    scores: Seq<Seq<u64>>,
    now: u64,
    n: int,
)
    requires
        increasing::<PriorityId>(a.w.s.checked),
        0 <= n,
    ensures
        ({
            let after = a.on_updates(updates, scores, now, n).w.s;
            &&& increasing::<PriorityId>(after.checked)
            &&& after.executing == a.w.s.executing
            &&& forall|id: PriorityId| #[trigger]
                a.w.s.checked.contains(id) ==> after.checked.contains(id) || evicted_by_updates(
                    a,
                    updates,
                    scores,
                    now,
                    n,
                    id,
                )
        }),
    decreases n,
{
    if n > 0 {
        lemma_auction_updates_settle(a, updates, scores, now, n - 1);
        let before = a.on_updates(updates, scores, now, n - 1);
        lemma_update_displaces(before, updates[n - 1], scores[n - 1], now);
        let after = a.on_updates(updates, scores, now, n).w.s;
        assert forall|id: PriorityId| #[trigger] a.w.s.checked.contains(id) implies after.checked.contains(
            id,
        ) || evicted_by_updates(a, updates, scores, now, n, id) by {
            if evicted_by_updates(a, updates, scores, now, n - 1, id) {
                let i = choose|i: int|
                    0 <= i < n - 1 && evictable(
                        (#[trigger] a.on_updates(updates, scores, now, i)).w.s,
                        id,
                    );
                assert(a.on_updates(updates, scores, now, i) == a.on_updates(
                    updates,
                    scores,
                    now,
                    i,
                ));
            } else {
                assert(before.w.s.checked.contains(id));
            }
        }
    }
}

proof fn lemma_auction_check_settles(
    a: AuctionWorld,
    meta: PriorityId,
    rep: CheckResponse,
    resolved_keys: Option<Seq<Pubkey>>,
)
    requires
        increasing::<PriorityId>(a.w.s.checked),
        a.w.s.executing.dom().finite(),
    ensures
        settles_one(a.w.s, a.on_check(meta, rep, resolved_keys).0.w.s, meta.key),
{
    lemma_without_item::<PriorityId>(a.w.s.checked, meta);
    match a.w.check_step(meta, rep, resolved_keys) {
        (_, CheckStep::Done(_)) => {},
        (w, CheckStep::Admit) => {
            assert(w == a.w);
            lemma_placed_displaces(w, meta);
        },
    }
}

proof fn lemma_auction_response_settles(a: AuctionWorld, meta: PriorityId, response: ResponseModel)
    requires
        increasing::<PriorityId>(a.w.s.checked),
        a.w.s.executing.dom().finite(),
    ensures
        settles_one(a.w.s, a.on_response(meta, response).w.s, meta.key),
{
    reveal(AuctionWorld::on_response);
    match response {
        ResponseModel::Unprocessed => {
            lemma_stop_settles(a.w.s, meta.key);
            lemma_with_item::<PriorityId>(a.w.s.checked, meta);
        },
        ResponseModel::Execute(rep) => {
            if a.w.s.executing.contains_key(meta.key) {
                lemma_executed_settles(a.w, meta, rep);
            }
        },
        ResponseModel::Check(rep, resolved_keys) => {
            lemma_auction_check_settles(a, meta, rep, resolved_keys);
        },
    }
}

/// In the auction, answers start nothing; and what waited to be executed still
/// does, unless an answer was about it or it made room.
pub(crate) proof fn lemma_auction_responses_settle(
    a: AuctionWorld,
    responses: Seq<(PriorityId, ResponseModel)>,
    n: int,
)
    requires
        increasing::<PriorityId>(a.w.s.checked),
        a.w.s.executing.dom().finite(),
        0 <= n <= responses.len(),
    ensures
        ({
            let after = a.on_responses(responses, n).w.s;
            &&& increasing::<PriorityId>(after.checked)
            &&& after.executing.dom().subset_of(a.w.s.executing.dom())
            &&& after.executing.dom().finite()
            &&& forall|id: PriorityId| #[trigger]
                a.w.s.checked.contains(id) ==> after.checked.contains(id)
                    || auction_answered_or_evicted(a, responses, n, id)
        }),
    decreases n,
{
    if n > 0 {
        lemma_auction_responses_settle(a, responses, n - 1);
        let before = a.on_responses(responses, n - 1);
        lemma_auction_response_settles(before, responses[n - 1].0, responses[n - 1].1);
        let after = a.on_responses(responses, n).w.s;
        assert forall|id: PriorityId| #[trigger] a.w.s.checked.contains(id) implies after.checked.contains(
            id,
        ) || auction_answered_or_evicted(a, responses, n, id) by {
            if auction_answered_or_evicted(a, responses, n - 1, id) {
                let i = choose|i: int|
                    0 <= i < n - 1 && (responses[i].0.key == id.key || evictable(
                        (#[trigger] a.on_responses(responses, i)).w.s,
                        id,
                    ));
                assert(a.on_responses(responses, i) == a.on_responses(responses, i));
            } else {
                assert(before.w.s.checked.contains(id));
            }
        }
    }
}

/// What an answer was about, or made room, is no less so after more answers.
pub(crate) proof fn lemma_answered_stays(
    b: BatchWorld,
    responses: Seq<(PriorityId, ResponseModel)>,
    k: int,
    n: int,
    id: PriorityId,
)
    requires
        k <= n,
        answered_or_evicted(b, responses, k, id),
    ensures
        answered_or_evicted(b, responses, n, id),
{
    let i = choose|i: int|
        0 <= i < k && (responses[i].0.key == id.key || evictable(
            (#[trigger] b.on_responses(responses, i)).w.s,
            id,
        ));
    assert(b.on_responses(responses, i) == b.on_responses(responses, i));
}

} // verus!
