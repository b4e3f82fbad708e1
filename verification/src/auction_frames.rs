//! What no step of the auction scheduler changes.

use vstd::prelude::*;

use crate::auction_model::{bid_values, capped_score, AuctionWorld};
use crate::batch_scheduler::lemma_roll_slot;
use crate::bridge::ProgressMessage;
use crate::frames::{
    lemma_executed_steady, lemma_make_room_steady, lemma_scan_bundle_steady,
    lemma_store_bundle_steady, starts_nothing, steady,
};
use crate::jito::UpdateModel;
use crate::pubkey::Pubkey;
use crate::scheduler_model::World;
use crate::shared::{BundleModel, PriorityId};
use crate::worker::{CheckResponse, ResponseModel};

verus! {

pub(crate) proof fn lemma_remove_checked_steady(w: World, txs: Seq<PriorityId>, n: int)
    ensures
        steady(w, w.remove_checked_upto(txs, n)),
        w.remove_checked_upto(txs, n).s.in_flight_cus == w.s.in_flight_cus,
        w.remove_checked_upto(txs, n).s.executing == w.s.executing,
        w.remove_checked_upto(txs, n).s.bundles == w.s.bundles,
    decreases n,
{
    reveal(starts_nothing);
    if n > 0 {
        lemma_remove_checked_steady(w, txs, n - 1);
    }
}

/// The start of a round takes over the validator's progress and keeps the
/// configuration.
pub(crate) proof fn lemma_auction_roll_steady(a: AuctionWorld, update: Option<ProgressMessage>, now: u64)
    ensures
        a.check_slot_roll(update, now).w.b.progress == a.w.note_progress(update, now).b.progress,
        a.check_slot_roll(update, now).w.s.runtime == a.w.s.runtime,
        a.check_slot_roll(update, now).w.s.slot == a.w.note_progress(
            update,
            now,
        ).b.progress.current_slot,
{
    reveal(starts_nothing);
    lemma_roll_slot(a.w.note_progress_or_starve(update, now));
}

pub(crate) proof fn lemma_place_steady(w: World, meta: PriorityId)
    ensures
        steady(w, w.insert_with_capacity(meta).0),
{
    reveal(starts_nothing);
    let evicted = w.evict_checked().count_check_evict();
    assert(steady(w, evicted));
    assert(steady(evicted, evicted.insert_checked(meta)));
}

proof fn lemma_auction_check_steady(
    a: AuctionWorld,
    meta: PriorityId,
    rep: CheckResponse,
    resolved_keys: Option<Seq<Pubkey>>,
)
    ensures
        steady(a.w, a.on_check(meta, rep, resolved_keys).0.w),
{
    reveal(starts_nothing);
    let (w, _) = a.w.check_step(meta, rep, resolved_keys);
    assert(steady(a.w, w));
    lemma_place_steady(w, meta);
}

proof fn lemma_auction_response_steady(a: AuctionWorld, meta: PriorityId, response: ResponseModel)
    ensures
        steady(a.w, a.on_response(meta, response).w),
{
    reveal(starts_nothing);
    reveal(AuctionWorld::on_response);
    match response {
        ResponseModel::Unprocessed => {},
        ResponseModel::Execute(rep) => {
            lemma_executed_steady(a.w, meta, rep);
        },
        ResponseModel::Check(rep, resolved_keys) => {
            lemma_auction_check_steady(a, meta, rep, resolved_keys);
        },
    }
}

pub(crate) proof fn lemma_auction_responses_steady(
    a: AuctionWorld,
    responses: Seq<(PriorityId, ResponseModel)>,
    n: int,
)
    ensures
        steady(a.w, a.on_responses(responses, n).w),
    decreases n,
{
    reveal(starts_nothing);
    if n > 0 {
        lemma_auction_responses_steady(a, responses, n - 1);
        lemma_auction_response_steady(
            a.on_responses(responses, n - 1),
            responses[n - 1].0,
            responses[n - 1].1,
        );
    }
}

proof fn lemma_auction_admit_steady(a: AuctionWorld, key: u64, score: Option<(u64, u64)>)
    ensures
        steady(a.w, a.admit_tpu(key, score).0.w),
        steady(a.w, a.admit_packet(key, score).w),
{
    reveal(starts_nothing);
    match score {
        Some((priority, cost)) => {
            let id = PriorityId { priority, cost, key };
            lemma_place_steady(a.w, id);
            assert(steady(a.w, a.w.admit_unchecked_packet(id)));
        },
        None => {},
    }
}

pub(crate) proof fn lemma_auction_tpu_steady(
    a: AuctionWorld,
    tpu: Seq<(Seq<u8>, bool)>,
    scores: Seq<u64>,
    n: int,
)
    ensures
        steady(a.w, a.on_tpu_upto(tpu, scores, n).w),
    decreases n,
{
    reveal(starts_nothing);
    reveal(AuctionWorld::on_tpu);
    if n > 0 {
        lemma_auction_tpu_steady(a, tpu, scores, n - 1);
        let before = a.on_tpu_upto(tpu, scores, n - 1);
        match before.w.b.received(tpu[n - 1].0, tpu[n - 1].1) {
            (b, Some(key)) => {
                lemma_auction_admit_steady(
                    AuctionWorld { w: World { b, ..before.w }, ..before },
                    key,
                    crate::auction_model::auction_priority_of(
                        before.w.b.runtime,
                        tpu[n - 1].0,
                        scores[n - 1],
                        before.min_score,
                    ),
                );
            },
            (_, None) => {},
        }
    }
}

pub(crate) proof fn lemma_auction_drain_tpu_steady(
    a: AuctionWorld,
    tpu: Seq<(Seq<u8>, bool)>,
    scores: Seq<u64>,
    max_count: int,
)
    ensures
        steady(a.w, a.drain_tpu(tpu, scores, max_count).w),
{
    reveal(starts_nothing);
    let additional = if tpu.len() < max_count {
        tpu.len() as int
    } else {
        max_count
    };
    lemma_make_room_steady(a.w, additional as nat);
    lemma_auction_tpu_steady(
        AuctionWorld { w: a.w.make_room(additional as nat), ..a },
        tpu,
        scores,
        additional,
    );
}

pub(crate) proof fn lemma_auction_admit_bundle_steady(
    a: AuctionWorld,
    packets: Seq<Seq<u8>>,
    values: Seq<Option<(u64, u64)>>,
    now: u64,
)
    ensures
        steady(a.w, a.admit_bundle(packets, values, now).w),
{
    reveal(starts_nothing);
    lemma_scan_bundle_steady(a.w, packets, values);
    match a.w.scan_bundle(packets, values) {
        (w, Some((keys, cost, value))) => {
            lemma_store_bundle_steady(
                w,
                BundleModel { priority: capped_score(value), cost, received_at: now, keys },
            );
        },
        (_, None) => {},
    }
}

pub(crate) proof fn lemma_auction_updates_steady(
    a: AuctionWorld,
    updates: Seq<UpdateModel>,
    scores: Seq<Seq<u64>>,
    now: u64,
    n: int,
)
    ensures
        steady(a.w, a.on_updates(updates, scores, now, n).w),
    decreases n,
{
    reveal(starts_nothing);
    reveal(AuctionWorld::on_update);
    if n > 0 {
        lemma_auction_updates_steady(a, updates, scores, now, n - 1);
        let before = a.on_updates(updates, scores, now, n - 1);
        match updates[n - 1] {
            UpdateModel::Bundle(bundle) => {
                lemma_auction_admit_bundle_steady(
                    before,
                    bundle,
                    bid_values(before.w.b.runtime, bundle, scores[n - 1], before.min_score),
                    now,
                );
            },
            UpdateModel::Packet(packet) => match before.w.b.inserted(packet) {
                (b, Some(key)) => {
                    lemma_auction_admit_steady(
                        AuctionWorld { w: World { b, ..before.w }, ..before },
                        key,
                        crate::auction_model::auction_priority_of(
                            before.w.b.runtime,
                            packet,
                            scores[n - 1][0],
                            before.min_score,
                        ),
                    );
                },
                (_, None) => {},
            },
            _ => {},
        }
    }
}

} // verus!
