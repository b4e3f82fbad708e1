//! How each step of the auction scheduler changes what it holds.

use vstd::prelude::*;

use crate::auction_engine::{
    acquired, grants_all, holders_at, released, CUAllocation, Holders,
};
use crate::batch_model::tip_message;
use crate::bridge::{
    BatchModel, BridgeModel, KeyedTransactionMeta, ProgressMessage, TxDecision, EXECUTE_BUNDLE_FLAGS,
    EXECUTE_FLAGS, EXECUTE_WORKER_START, LEADER_READY,
};
use crate::costs::RuntimeModel;
use crate::events::{EvictReason, TransactionAction};
use crate::jito::UpdateModel;
use crate::pubkey::Pubkey;
use crate::queues::{bundle_message, with_executing};
use crate::scheduler_model::{CheckStep, CoreModel, World};
use crate::shared::{BundleModel, PriorityId, BUNDLE_MARKER};
use crate::tx_costs::{costs_of, TxCosts};
use crate::worker::{budget_of, floored, round_limit, CheckResponse, PollModel, ResponseModel};

verus! {

/// The most transactions that one message starts.
pub const MAX_BATCH_SIZE: usize = 32;

/// The most waiting transactions that are looked at for one message.
pub const SEARCH_LIMIT: usize = 65536;

/// The auction scheduler and its side of the connection.
#[verifier::ext_equal]
pub struct AuctionWorld {
    pub w: World,
    /// The accounts that executing transactions hold.
    pub held: Holders,
    /// The reserved and committed units, which no step touches.
    pub allocation: CUAllocation,
    /// Transactions below this score are refused.
    pub min_score: u64,
}

/// The score of a transaction, below the marker of bundles.
pub open spec fn capped_score(score: u64) -> u64 {
    if score >= BUNDLE_MARKER {
        (BUNDLE_MARKER - 1) as u64
    } else {
        score
    }
}

/// Priority and cost of a transaction with these costs that the auction gave a
/// score; none if it has no costs, or if its score is too low.
pub open spec fn scored(costs: Option<TxCosts>, score: u64, min_score: u64) -> Option<(u64, u64)> {
    match costs {
        Some(costs) => if capped_score(score) < min_score {
            None
        } else {
            Some((capped_score(score), costs.total_cost))
        },
        None => None,
    }
}

/// Priority and cost of a transaction that the auction gave a score; none if
/// its costs cannot be told, or if its score is too low.
pub open spec fn auction_priority_of(
    runtime: RuntimeModel,
    packet: Seq<u8>,
    score: u64,
    min_score: u64,
) -> Option<(u64, u64)> {
    scored(costs_of(packet, runtime.features), score, min_score)
}

/// Cost and value of a transaction of a bundle: its value is its score.
pub open spec fn bid_value(priority: Option<(u64, u64)>) -> Option<(u64, u64)> {
    match priority {
        Some((score, cost)) => Some((cost, score)),
        None => None,
    }
}

/// Costs and values of the transactions of a bundle.
pub open spec fn bid_values(
    runtime: RuntimeModel,
    packets: Seq<Seq<u8>>,
    scores: Seq<u64>,
    min_score: u64,
) -> Seq<Option<(u64, u64)>> {
    Seq::new(
        packets.len(),
        |i: int| bid_value(auction_priority_of(runtime, packets[i], scores[i], min_score)),
    )
}

/// What was picked among the waiting transactions.
#[verifier::ext_equal]
pub struct Picking {
    pub held: Holders,
    pub budget: u64,
    pub picked: Seq<PriorityId>,
}

/// What is picked among the `n` waiting transactions of highest priority, from
/// the highest down: each that fits the budget and whose locks are granted.
pub open spec fn pick_upto(
    held: Holders,
    b: BridgeModel,
    checked: Seq<PriorityId>,
    budget: u64,
    n: int,
) -> Picking
    decreases n,
{
    if n <= 0 {
        Picking { held, budget, picked: Seq::empty() }
    } else {
        let p = pick_upto(held, b, checked, budget, n - 1);
        let tx = checked[checked.len() - n];
        if p.picked.len() >= MAX_BATCH_SIZE || tx.cost > p.budget || !grants_all(
            p.held,
            b.locks(tx.key),
        ) {
            p
        } else {
            Picking {
                held: acquired(p.held, tx.key, b.locks(tx.key)),
                budget: (p.budget - tx.cost) as u64,
                picked: p.picked.push(tx),
            }
        }
    }
}

/// What is sent for the picked transactions.
pub open spec fn picked_message(picked: Seq<PriorityId>) -> Seq<KeyedTransactionMeta> {
    picked.map_values(|tx: PriorityId| KeyedTransactionMeta { key: tx.key, meta: tx })
}

/// The first `n` transactions take their locks, each if they are granted; none
/// if one is not.
pub open spec fn acquire_upto(held: Holders, b: BridgeModel, keys: Seq<u64>, n: int) -> Option<Holders>
    decreases n,
{
    if n <= 0 {
        Some(held)
    } else {
        match acquire_upto(held, b, keys, n - 1) {
            Some(h) => if grants_all(h, b.locks(keys[n - 1])) {
                Some(acquired(h, keys[n - 1], b.locks(keys[n - 1])))
            } else {
                None
            },
            None => None,
        }
    }
}

/// The first `n` transactions give up their locks.
pub open spec fn release_upto(held: Holders, b: BridgeModel, keys: Seq<u64>, n: int) -> Holders
    decreases n,
{
    if n <= 0 {
        held
    } else {
        released(release_upto(held, b, keys, n - 1), keys[n - 1], b.locks(keys[n - 1]))
    }
}

/// How many transactions take their locks before one cannot.
pub open spec fn granted_prefix(held: Holders, b: BridgeModel, keys: Seq<u64>, n: int) -> int
    decreases n,
{
    if n <= 0 {
        0
    } else if acquire_upto(held, b, keys, n) is Some {
        n
    } else {
        granted_prefix(held, b, keys, n - 1)
    }
}

/// The locks after a bundle that needs them was tried in vain: what its
/// transactions took, they gave up again.
pub open spec fn rolled_back(held: Holders, b: BridgeModel, keys: Seq<u64>) -> Holders {
    let n = granted_prefix(held, b, keys, keys.len() as int);
    match acquire_upto(held, b, keys, n) {
        Some(taken) => release_upto(taken, b, keys, n),
        None => held,
    }
}

impl World {
    /// The first `n` of these transactions no longer wait to be executed.
    pub open spec fn remove_checked_upto(self, txs: Seq<PriorityId>, n: int) -> World
        decreases n,
    {
        if n <= 0 {
            self
        } else {
            self.remove_checked_upto(txs, n - 1).remove_checked(txs[n - 1])
        }
    }

    /// Finds a place among the transactions that wait to be executed. If there
    /// is no room, the one of lowest priority makes some, unless the new one is
    /// of no higher priority: then that one is refused.
    pub open spec fn insert_with_capacity(self, meta: PriorityId) -> (World, TxDecision) {
        if self.s.pending() >= self.s.checked_capacity && self.s.checked.len() > 0 {
            if meta.priority <= self.s.checked.first().priority {
                (
                    self.report_tx(
                        meta.key,
                        meta.priority,
                        TransactionAction::Evict { reason: EvictReason::CheckedCapacity },
                    ).count_check_evict(),
                    TxDecision::Drop,
                )
            } else {
                (
                    self.evict_checked().count_check_evict().insert_checked(meta),
                    TxDecision::Keep,
                )
            }
        } else {
            (self.insert_checked(meta), TxDecision::Keep)
        }
    }

    /// Whether a transaction looks up further accounts.
    pub open spec fn has_lookups(self, key: u64) -> bool {
        self.b.transactions.contains_key(key) && self.b.transactions[key].fields.header.num_lookups != 0
    }

    /// Notes where the validator stands; a validator that has been silent for
    /// too long is given the same time again.
    pub open spec fn note_progress_or_starve(self, update: Option<ProgressMessage>, now: u64) -> World {
        match update {
            Some(_) => self.note_progress(update, now),
            None => if floored(now as int, self.s.last_progress_time as int)
                >= self.s.runtime.progress_timeout {
                World { s: CoreModel { last_progress_time: now, ..self.s }, ..self }
            } else {
                self
            },
        }
    }
}

impl AuctionWorld {
    /// Whether a transaction's locks can be granted.
    pub open spec fn can_lock(self, key: u64) -> bool {
        grants_all(self.held, self.w.b.locks(key))
    }

    /// A transaction takes its locks.
    pub open spec fn lock(self, key: u64) -> AuctionWorld {
        AuctionWorld { held: acquired(self.held, key, self.w.b.locks(key)), ..self }
    }

    /// Whether a transaction holds every account that it locks.
    pub open spec fn holds_locks(self, key: u64) -> bool {
        forall|i: int|
            0 <= i < self.w.b.locks(key).len() ==> holders_at(
                self.held,
                (#[trigger] self.w.b.locks(key)[i]).0,
            ).contains_key(key)
    }

    /// A transaction gives up its locks.
    pub open spec fn unlock(self, key: u64) -> AuctionWorld {
        AuctionWorld { held: released(self.held, key, self.w.b.locks(key)), ..self }
    }

    /// Starts the transactions that make this validator the receiver of tips,
    /// if the locks of the first can be granted. They may lock the same
    /// accounts.
    pub open spec fn start_tips(self, init: u64, change: u64) -> AuctionWorld {
        if self.can_lock(init) {
            let locked = self.lock(init).lock(change);
            let executing = with_executing(
                with_executing(locked.w.s.executing, init, 0),
                change,
                0,
            );
            AuctionWorld {
                w: World {
                    s: CoreModel { executing, ..locked.w.s },
                    b: locked.w.b.scheduled(tip_message(init, locked.w.s.slot)).scheduled(
                        tip_message(change, locked.w.s.slot),
                    ),
                },
                ..locked
            }
        } else {
            AuctionWorld { w: self.w.drop_tx(init).drop_tx(change), ..self }
        }
    }

    /// Adds the transactions that make this validator the receiver of tips, and
    /// starts them.
    pub open spec fn submit_tips(self, init: Seq<u8>, change: Seq<u8>) -> AuctionWorld {
        match self.w.b.inserted(init) {
            (b, Some(init_key)) => match b.inserted(change) {
                (b, Some(change_key)) => AuctionWorld {
                    w: World { b, ..self.w },
                    ..self
                }.start_tips(init_key, change_key),
                (b, None) => AuctionWorld { w: World { b, ..self.w }.drop_tx(init_key), ..self },
            },
            (b, None) => AuctionWorld { w: World { b, ..self.w }, ..self },
        }
    }

    /// Makes this validator the receiver of tips, if the transactions for that
    /// can be made.
    pub open spec fn become_tip_receiver(self) -> AuctionWorld {
        match self.w.s.tip_packets() {
            Some((init, change)) => self.submit_tips(init, change),
            None => self,
        }
    }

    /// Notes where the validator stands; moves on to its slot; and, if it has
    /// just become leader, makes it the receiver of tips.
    pub open spec fn check_slot_roll(self, update: Option<ProgressMessage>, now: u64) -> AuctionWorld {
        let noted = self.w.note_progress_or_starve(update, now);
        let rolled = noted.roll_slot();
        if noted.becomes_leader() {
            AuctionWorld { w: rolled.report_leader(), ..self }.become_tip_receiver()
        } else {
            AuctionWorld { w: rolled, ..self }
        }
    }

    /// A transaction was checked. One that passes for the first time waits to be
    /// executed, if a place is found for it.
    pub open spec fn on_check(
        self,
        meta: PriorityId,
        rep: CheckResponse,
        resolved_keys: Option<Seq<Pubkey>>,
    ) -> (AuctionWorld, TxDecision) {
        match self.w.check_step(meta, rep, resolved_keys) {
            (w, CheckStep::Done(decision)) => (AuctionWorld { w, ..self }, decision),
            (w, CheckStep::Admit) => match w.insert_with_capacity(meta) {
                (refused, TxDecision::Drop) => (
                    AuctionWorld { w: refused, ..self },
                    TxDecision::Drop,
                ),
                (placed, TxDecision::Keep) => (
                    AuctionWorld {
                        w: placed.report_tx(
                            meta.key,
                            meta.priority,
                            TransactionAction::CheckOk,
                        ).count_check_ok(),
                        ..self
                    },
                    TxDecision::Keep,
                ),
            },
        }
    }

    /// Gives up the locks of a transaction that executes.
    pub open spec fn release(self, key: u64) -> AuctionWorld {
        if self.w.s.executing.contains_key(key) {
            self.unlock(key)
        } else {
            self
        }
    }

    /// What a worker's answer means for the transaction.
    pub open spec fn decide(self, meta: PriorityId, response: ResponseModel) -> (
        AuctionWorld,
        TxDecision,
    ) {
        match response {
            ResponseModel::Unprocessed => {
                let released = self.release(meta.key);
                let (w, decision) = released.w.unprocessed(meta);
                (AuctionWorld { w, ..released }, decision)
            },
            ResponseModel::Execute(rep) => if self.w.s.executing.contains_key(meta.key) {
                let released = self.release(meta.key);
                let (w, decision) = released.w.executed(meta, rep);
                (AuctionWorld { w, ..released }, decision)
            } else {
                (self, TxDecision::Keep)
            },
            ResponseModel::Check(rep, resolved_keys) => {
                let (checked, decision) = self.on_check(meta, rep, resolved_keys);
                (
                    AuctionWorld {
                        w: World {
                            b: checked.w.b.resolved(meta.key, resolved_keys),
                            ..checked.w
                        },
                        ..checked
                    },
                    decision,
                )
            },
        }
    }

    /// A worker answered. Answers about transactions that were let go of, and
    /// executions that were not asked for, are ignored.
    #[verifier::opaque]
    pub open spec fn on_response(self, meta: PriorityId, response: ResponseModel) -> AuctionWorld {
        if self.w.b.transactions.contains_key(meta.key) {
            match self.decide(meta, response) {
                (next, TxDecision::Keep) => next,
                (next, TxDecision::Drop) => AuctionWorld { w: next.w.drop_tx(meta.key), ..next },
            }
        } else {
            self
        }
    }

    /// Workers gave the first `n` of these answers.
    pub open spec fn on_responses(
        self,
        responses: Seq<(PriorityId, ResponseModel)>,
        n: int,
    ) -> AuctionWorld
        decreases n,
    {
        if n <= 0 {
            self
        } else {
            self.on_responses(responses, n - 1).on_response(
                responses[n - 1].0,
                responses[n - 1].1,
            )
        }
    }

    /// Whether a worker's answer makes sense: it does for the rest of the
    /// scheduler, and a transaction that was executed holds its locks.
    pub open spec fn accepts_answer(self, meta: PriorityId, response: ResponseModel) -> bool {
        &&& self.w.accepts_answer(meta, response)
        &&& self.w.ends_execution(meta, response) ==> self.holds_locks(meta.key)
    }

    /// Whether all these answers make sense, each after the ones before it.
    pub open spec fn accepts_answers(self, responses: Seq<(PriorityId, ResponseModel)>) -> bool {
        forall|i: int|
            0 <= i < responses.len() ==> (#[trigger] self.on_responses(
                responses,
                i,
            )).accepts_answer(responses[i].0, responses[i].1)
    }

    /// A transaction of the validator is scored. Unless it has no score or names
    /// a filtered account, it waits to be executed; or to be checked first, if
    /// it looks up further accounts.
    pub open spec fn admit_tpu(self, key: u64, score: Option<(u64, u64)>) -> (AuctionWorld, TxDecision) {
        match score {
            None => (AuctionWorld { w: self.w.count_tpu_err(), ..self }, TxDecision::Drop),
            Some((priority, cost)) => if self.w.filtered(key) {
                (AuctionWorld { w: self.w.count_tpu_filtered(), ..self }, TxDecision::Drop)
            } else {
                let id = PriorityId { priority, cost, key };
                let (w, decision) = if self.w.has_lookups(key) {
                    (self.w.push_unchecked(id), TxDecision::Keep)
                } else {
                    self.w.insert_with_capacity(id)
                };
                (AuctionWorld { w: w.report_tpu(id), ..self }, decision)
            },
        }
    }

    /// A transaction arrived from the validator, and the auction gave it a
    /// score.
    #[verifier::opaque]
    pub open spec fn on_tpu(self, packet: Seq<u8>, simple_vote: bool, score: u64) -> AuctionWorld {
        match self.w.b.received(packet, simple_vote) {
            (b, Some(key)) => match (AuctionWorld { w: World { b, ..self.w }, ..self }).admit_tpu(
                key,
                auction_priority_of(self.w.b.runtime, packet, score, self.min_score),
            ) {
                (next, TxDecision::Keep) => next,
                (next, TxDecision::Drop) => AuctionWorld { w: next.w.drop_tx(key), ..next },
            },
            (b, None) => AuctionWorld { w: World { b, ..self.w }, ..self },
        }
    }

    /// The first `n` transactions arrived from the validator.
    pub open spec fn on_tpu_upto(
        self,
        tpu: Seq<(Seq<u8>, bool)>,
        scores: Seq<u64>,
        n: int,
    ) -> AuctionWorld
        decreases n,
    {
        if n <= 0 {
            self
        } else {
            self.on_tpu_upto(tpu, scores, n - 1).on_tpu(tpu[n - 1].0, tpu[n - 1].1, scores[n - 1])
        }
    }

    /// Takes in at most `max_count` of the transactions that wait, after making
    /// room for them.
    pub open spec fn drain_tpu(
        self,
        tpu: Seq<(Seq<u8>, bool)>,
        scores: Seq<u64>,
        max_count: int,
    ) -> AuctionWorld {
        let additional = if tpu.len() < max_count {
            tpu.len() as int
        } else {
            max_count
        };
        AuctionWorld { w: self.w.make_room(additional as nat), ..self }.on_tpu_upto(
            tpu,
            scores,
            additional,
        )
    }

    /// A packet of the block engine is scored. Unless it has no score or names a
    /// filtered account, it waits to be executed; or to be checked first, if it
    /// looks up further accounts.
    pub open spec fn admit_packet(self, key: u64, score: Option<(u64, u64)>) -> AuctionWorld {
        AuctionWorld {
            w: match score {
                None => self.w.refuse_packet(key),
                Some((priority, cost)) => if self.w.filtered(key) {
                    self.w.filter_packet(key)
                } else {
                    let id = PriorityId { priority, cost, key };
                    if self.w.has_lookups(key) {
                        self.w.admit_unchecked_packet(id)
                    } else {
                        match self.w.insert_with_capacity(id) {
                            (w, TxDecision::Keep) => w.report_packet(id),
                            (w, TxDecision::Drop) => w.report_packet(id).drop_tx(key),
                        }
                    }
                },
            },
            ..self
        }
    }

    /// A packet arrived from the block engine, and the auction gave it a score.
    pub open spec fn on_packet(self, packet: Seq<u8>, score: u64) -> AuctionWorld {
        match self.w.b.inserted(packet) {
            (b, Some(key)) => (AuctionWorld { w: World { b, ..self.w }, ..self }).admit_packet(
                key,
                auction_priority_of(self.w.b.runtime, packet, score, self.min_score),
            ),
            (b, None) => AuctionWorld { w: World { b, ..self.w }, ..self },
        }
    }

    /// A bundle arrived whose transactions have these costs and values. Its
    /// priority is their sum.
    pub open spec fn admit_bundle(
        self,
        packets: Seq<Seq<u8>>,
        values: Seq<Option<(u64, u64)>>,
        now: u64,
    ) -> AuctionWorld {
        match self.w.scan_bundle(packets, values) {
            (w, Some((keys, cost, value))) => AuctionWorld {
                w: w.store_bundle(
                    BundleModel { priority: capped_score(value), cost, received_at: now, keys },
                ),
                ..self
            },
            (w, None) => AuctionWorld { w, ..self },
        }
    }

    /// A bundle arrived from the block engine, and the auction gave its
    /// transactions scores.
    pub open spec fn on_bundle(self, packets: Seq<Seq<u8>>, scores: Seq<u64>, now: u64) -> AuctionWorld {
        self.admit_bundle(
            packets,
            bid_values(self.w.b.runtime, packets, scores, self.min_score),
            now,
        )
    }

    /// The block engine sent something, and the auction gave its transactions
    /// scores.
    #[verifier::opaque]
    pub open spec fn on_update(self, update: UpdateModel, scores: Seq<u64>, now: u64) -> AuctionWorld {
        match update {
            UpdateModel::BuilderConfig(_) => self,
            UpdateModel::TipConfig(config) => AuctionWorld {
                w: World { s: CoreModel { tip_config: Some(config), ..self.w.s }, ..self.w },
                ..self
            },
            UpdateModel::RecentBlockhash(hash) => AuctionWorld {
                w: World { s: CoreModel { recent_blockhash: hash, ..self.w.s }, ..self.w },
                ..self
            },
            UpdateModel::Packet(packet) => self.on_packet(packet, scores[0]),
            UpdateModel::Bundle(bundle) => self.on_bundle(bundle, scores, now),
        }
    }

    /// The block engine sent the first `n` of these.
    pub open spec fn on_updates(
        self,
        updates: Seq<UpdateModel>,
        scores: Seq<Seq<u64>>,
        now: u64,
        n: int,
    ) -> AuctionWorld
        decreases n,
    {
        if n <= 0 {
            self
        } else {
            self.on_updates(updates, scores, now, n - 1).on_update(
                updates[n - 1],
                scores[n - 1],
                now,
            )
        }
    }

    /// Picks among the waiting transactions, and sends what was picked.
    pub open spec fn try_transactions(self, budget: u64, worker: usize) -> (
        AuctionWorld,
        u64,
        Seq<KeyedTransactionMeta>,
    ) {
        let checked = self.w.s.checked;
        let n = if checked.len() < SEARCH_LIMIT {
            checked.len() as int
        } else {
            SEARCH_LIMIT as int
        };
        let p = pick_upto(self.held, self.w.b, checked, budget, n);
        let batch = picked_message(p.picked);
        if p.picked.len() == 0 {
            (self, budget, Seq::empty())
        } else {
            (
                AuctionWorld {
                    w: World {
                        b: self.w.b.scheduled(
                            BatchModel {
                                worker,
                                transactions: batch,
                                max_working_slot: (self.w.b.progress.current_slot + 1) as u64,
                                flags: EXECUTE_FLAGS,
                            },
                        ),
                        ..self.w
                    }.remove_checked_upto(p.picked, p.picked.len() as int),
                    held: p.held,
                    ..self
                },
                p.budget,
                batch,
            )
        }
    }

    /// Whether the locks of all transactions can be granted.
    pub open spec fn can_lock_keys(self, keys: Seq<u64>) -> bool {
        forall|i: int| 0 <= i < keys.len() ==> self.can_lock(#[trigger] keys[i])
    }

    /// Tries to send the bundle of highest priority. Its transactions must not
    /// conflict with what executes, nor with one another.
    pub open spec fn try_bundle(self, budget: u64, worker: usize) -> (
        AuctionWorld,
        u64,
        Seq<KeyedTransactionMeta>,
    ) {
        if self.w.s.bundles.len() == 0 || self.w.s.bundles.last().cost > budget
            || !self.can_lock_keys(self.w.s.bundles.last().keys) {
            (self, budget, Seq::empty())
        } else {
            let bundle = self.w.s.bundles.last();
            let n = bundle.keys.len() as int;
            match acquire_upto(self.held, self.w.b, bundle.keys, n) {
                None => (
                    AuctionWorld { held: rolled_back(self.held, self.w.b, bundle.keys), ..self },
                    budget,
                    Seq::empty(),
                ),
                Some(held) => {
                    let batch = bundle_message(bundle.keys, bundle.cost);
                    let sent = World {
                        b: self.w.b.scheduled(
                            BatchModel {
                                worker,
                                transactions: batch,
                                max_working_slot: (self.w.b.progress.current_slot + 1) as u64,
                                flags: EXECUTE_BUNDLE_FLAGS,
                            },
                        ),
                        ..self.w
                    }.dequeue_upto(bundle.keys, n);
                    (
                        AuctionWorld {
                            w: World {
                                s: CoreModel { bundles: sent.s.bundles.drop_last(), ..sent.s },
                                ..sent
                            },
                            held,
                            ..self
                        },
                        (budget - bundle.cost) as u64,
                        batch,
                    )
                },
            }
        }
    }

    /// Tries to send the best that waits, a bundle first only if it beats every
    /// transaction; and the other kind, if the first could not be sent.
    pub open spec fn try_best(self, budget: u64, worker: usize) -> (
        AuctionWorld,
        u64,
        Seq<KeyedTransactionMeta>,
    ) {
        let checked = self.w.s.checked;
        let bundles = self.w.s.bundles;
        if checked.len() == 0 {
            self.try_bundle(budget, worker)
        } else if bundles.len() == 0 {
            self.try_transactions(budget, worker)
        } else if checked.last().priority >= bundles.last().priority {
            let (next, left, batch) = self.try_transactions(budget, worker);
            if batch.len() == 0 {
                next.try_bundle(budget, worker)
            } else {
                (next, left, batch)
            }
        } else {
            let (next, left, batch) = self.try_bundle(budget, worker);
            if batch.len() == 0 {
                next.try_transactions(budget, worker)
            } else {
                (next, left, batch)
            }
        }
    }

    /// What was sent executes.
    pub open spec fn started(self, batch: Seq<KeyedTransactionMeta>) -> AuctionWorld {
        if batch.len() == 0 {
            self
        } else {
            AuctionWorld { w: self.w.start_batch(batch), ..self }
        }
    }

    /// Picks among the waiting transactions, and starts what was picked.
    pub open spec fn schedule_transactions(self, budget: u64, worker: usize) -> (
        AuctionWorld,
        u64,
        Seq<KeyedTransactionMeta>,
    ) {
        let (next, left, batch) = self.try_transactions(budget, worker);
        (next.started(batch), left, batch)
    }

    /// Starts the bundle of highest priority, if that can be done.
    pub open spec fn schedule_bundle(self, budget: u64, worker: usize) -> (
        AuctionWorld,
        u64,
        Seq<KeyedTransactionMeta>,
    ) {
        let (next, left, batch) = self.try_bundle(budget, worker);
        (next.started(batch), left, batch)
    }

    /// Starts the best that waits, if that can be done.
    pub open spec fn schedule_best(self, budget: u64, worker: usize) -> (
        AuctionWorld,
        u64,
        Seq<KeyedTransactionMeta>,
    ) {
        let (next, left, batch) = self.try_best(budget, worker);
        (next.started(batch), left, batch)
    }

    /// Gives each idle worker from `worker` on the best that waits, until the
    /// budget is used up or nothing can be started.
    pub open spec fn execute_from(self, budget: u64, worker: int, n: int) -> AuctionWorld
        decreases n - worker,
    {
        if worker >= n || budget == 0 {
            self
        } else if self.w.b.workers[worker].len != 0 {
            self.execute_from(budget, worker + 1, n)
        } else {
            let (next, left, batch) = self.try_best(budget, worker as usize);
            if batch.len() == 0 {
                next
            } else {
                AuctionWorld { w: next.w.start_batch(batch), ..next }.execute_from(
                    left,
                    worker + 1,
                    n,
                )
            }
        }
    }

    /// Gives idle workers the best that waits, within the budget of the block.
    pub open spec fn schedule_execute(self) -> AuctionWorld {
        self.execute_from(
            budget_of(
                self.w.b.progress,
                self.w.s.runtime.block_fill_cutoff,
                self.w.s.in_flight_cus,
            ) as u64,
            EXECUTE_WORKER_START as int,
            self.w.b.workers.len() as int,
        )
    }

    /// Schedules what there is to check and, while the validator leads, what
    /// there is to execute.
    pub open spec fn schedule(self, is_leader: bool) -> AuctionWorld {
        let checks = AuctionWorld { w: self.w.schedule_checks(), ..self };
        if is_leader {
            let executed = checks.schedule_execute();
            AuctionWorld { w: executed.w.start_recheck(), ..executed }
        } else {
            checks
        }
    }

    /// Whether the validator is leader.
    pub open spec fn is_leader(self) -> bool {
        self.w.b.progress.leader_state == LEADER_READY
    }

    /// The start of a round: moves on to the validator's slot and notes what
    /// workers answered.
    pub open spec fn begin_round(
        self,
        update: Option<ProgressMessage>,
        now: u64,
        responses: Seq<(PriorityId, ResponseModel)>,
    ) -> AuctionWorld {
        self.check_slot_roll(update, now).on_responses(responses, responses.len() as int)
    }

    /// Notes what arrived; and whether the validator is leader.
    pub open spec fn take_in(
        self,
        input: PollModel,
        tpu_scores: Seq<u64>,
        update_scores: Seq<Seq<u64>>,
    ) -> (AuctionWorld, bool) {
        let answered = self.begin_round(input.progress, input.now, input.responses);
        let drained = answered.drain_tpu(
            input.tpu,
            tpu_scores,
            round_limit(answered.is_leader()),
        );
        (
            AuctionWorld { w: drained.w.drop_expired_bundles(input.now), ..drained }.on_updates(
                input.updates,
                update_scores,
                input.now,
                input.updates.len() as int,
            ),
            answered.is_leader(),
        )
    }

    /// Whether the validator does not lead in a round.
    pub open spec fn follows(self, input: PollModel) -> bool {
        self.w.note_progress(input.progress, input.now).b.progress.leader_state != LEADER_READY
    }

    /// One round: notes what arrived, then schedules.
    pub open spec fn poll(
        self,
        input: PollModel,
        tpu_scores: Seq<u64>,
        update_scores: Seq<Seq<u64>>,
    ) -> AuctionWorld {
        let (taken, is_leader) = self.take_in(input, tpu_scores, update_scores);
        taken.schedule(is_leader)
    }
}

} // verus!
