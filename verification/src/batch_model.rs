//! How each step of the batch scheduler changes what it holds.

use vstd::prelude::*;

use crate::bridge::{
    BatchModel, KeyedTransactionMeta, ProgressMessage, TxDecision, EXECUTE_BUNDLE_FLAGS,
    EXECUTE_DROP_FLAGS, EXECUTE_FLAGS, EXECUTE_WORKER_START, LEADER_READY,
};
use crate::costs::{bundle_priority_of, cost_and_reward, priority_and_cost, RuntimeModel};
use crate::events::TransactionAction;
use crate::jito::UpdateModel;
use crate::locks::{can_lock_all, lock_all, lockers_at, unlock_all, LockTable};
use crate::pubkey::Pubkey;
use crate::queues::{bundle_message, with_executing};
use crate::scheduler_model::{CheckStep, CoreModel, World};
use crate::shared::{BundleModel, PriorityId, BUNDLE_MARKER};
use crate::transaction::sanitized_transaction;
use crate::worker::{
    budget_of, round_limit, CheckResponse, PollError, PollModel, ResponseModel,
};

verus! {

/// The batch scheduler and its side of the connection.
#[verifier::ext_equal]
pub struct BatchWorld {
    pub w: World,
    /// The accounts that executing transactions hold.
    pub locks: LockTable,
}

/// Cost and value of a transaction of a bundle: its value is the reward for it
/// and the tip it pays.
pub open spec fn bundle_value(runtime: RuntimeModel, packet: Seq<u8>) -> Option<(u64, u64)> {
    match (cost_and_reward(runtime, packet), sanitized_transaction(packet)) {
        (Some((cost, reward)), Some(fields)) => if reward + fields.tip() <= u64::MAX {
            Some((cost, (reward + fields.tip()) as u64))
        } else {
            None
        },
        _ => None,
    }
}

/// Costs and values of the transactions of a bundle.
pub open spec fn bundle_values(runtime: RuntimeModel, packets: Seq<Seq<u8>>) -> Seq<
    Option<(u64, u64)>,
> {
    packets.map_values(|p: Seq<u8>| bundle_value(runtime, p))
}

/// The message that starts one transaction of the tip programs.
pub open spec fn tip_message(key: u64, slot: u64) -> BatchModel {
    BatchModel {
        worker: EXECUTE_WORKER_START,
        transactions: seq![
            KeyedTransactionMeta {
                key,
                meta: PriorityId { priority: BUNDLE_MARKER, cost: 0, key },
            },
        ],
        max_working_slot: (slot + 4) as u64,
        flags: EXECUTE_DROP_FLAGS,
    }
}

impl BatchWorld {
    /// Whether a transaction's locks can be granted.
    pub open spec fn can_lock(self, key: u64) -> bool {
        can_lock_all(self.locks, self.w.b.locks(key))
    }

    /// A transaction takes its locks.
    pub open spec fn lock(self, key: u64) -> BatchWorld {
        BatchWorld { locks: lock_all(self.locks, key, self.w.b.locks(key)), ..self }
    }

    /// The first `n` transactions take their locks.
    pub open spec fn lock_upto(self, keys: Seq<u64>, n: int) -> BatchWorld
        decreases n,
    {
        if n <= 0 {
            self
        } else {
            self.lock_upto(keys, n - 1).lock(keys[n - 1])
        }
    }

    /// Whether a transaction holds every account that it locks, as it locks it.
    pub open spec fn holds_locks(self, key: u64) -> bool {
        forall|i: int|
            0 <= i < self.w.b.locks(key).len() ==> lockers_at(
                self.locks,
                (#[trigger] self.w.b.locks(key)[i]).0,
            ).holds_as(key, self.w.b.locks(key)[i].1)
    }

    /// A transaction gives up its locks.
    pub open spec fn unlock(self, key: u64) -> BatchWorld {
        BatchWorld { locks: unlock_all(self.locks, key, self.w.b.locks(key)), ..self }
    }

    /// Starts the transactions that make this validator the receiver of tips,
    /// if their locks can be granted. They may lock the same accounts.
    pub open spec fn start_tips(self, init: u64, change: u64) -> BatchWorld {
        if self.can_lock(init) && self.can_lock(change) {
            let locked = self.lock(init).lock(change);
            let executing = with_executing(
                with_executing(locked.w.s.executing, init, 0),
                change,
                0,
            );
            BatchWorld {
                w: World {
                    s: CoreModel { executing, ..locked.w.s },
                    b: locked.w.b.scheduled(tip_message(init, locked.w.s.slot)).scheduled(
                        tip_message(change, locked.w.s.slot),
                    ),
                },
                ..locked
            }
        } else {
            BatchWorld { w: self.w.drop_tx(init).drop_tx(change), ..self }
        }
    }

    /// Adds the transactions that make this validator the receiver of tips, and
    /// starts them.
    pub open spec fn submit_tips(self, init: Seq<u8>, change: Seq<u8>) -> BatchWorld {
        match self.w.b.inserted(init) {
            (b, Some(init_key)) => match b.inserted(change) {
                (b, Some(change_key)) => BatchWorld {
                    w: World { b, ..self.w },
                    ..self
                }.start_tips(init_key, change_key),
                (b, None) => BatchWorld { w: World { b, ..self.w }.drop_tx(init_key), ..self },
            },
            (b, None) => BatchWorld { w: World { b, ..self.w }, ..self },
        }
    }

    /// Makes this validator the receiver of tips, if the transactions for that
    /// can be made.
    pub open spec fn become_tip_receiver(self) -> BatchWorld {
        match self.w.s.tip_packets() {
            Some((init, change)) => self.submit_tips(init, change),
            None => self,
        }
    }

    /// Notes where the validator stands; moves on to its slot; and, if it has
    /// just become leader, makes it the receiver of tips.
    pub open spec fn check_slot_roll(self, update: Option<ProgressMessage>, now: u64) -> BatchWorld {
        let noted = self.w.note_progress(update, now);
        let rolled = noted.roll_slot();
        if noted.becomes_leader() {
            BatchWorld { w: rolled.report_leader(), ..self }.become_tip_receiver()
        } else {
            BatchWorld { w: rolled, ..self }
        }
    }

    /// A transaction was checked. One that passes for the first time waits to be
    /// executed; if there is no room, the one of lowest priority makes some.
    pub open spec fn on_check(
        self,
        meta: PriorityId,
        rep: CheckResponse,
        resolved_keys: Option<Seq<Pubkey>>,
    ) -> (BatchWorld, TxDecision) {
        match self.w.check_step(meta, rep, resolved_keys) {
            (w, CheckStep::Done(decision)) => (BatchWorld { w, ..self }, decision),
            (w, CheckStep::Admit) => {
                let room = if w.s.pending() >= w.s.checked_capacity && w.s.checked.len() > 0 {
                    w.evict_checked().count_check_evict()
                } else {
                    w
                };
                (
                    BatchWorld {
                        w: room.insert_checked(meta).report_tx(
                            meta.key,
                            meta.priority,
                            TransactionAction::CheckOk,
                        ).count_check_ok(),
                        ..self
                    },
                    TxDecision::Keep,
                )
            },
        }
    }

    /// Gives up the locks of a transaction that executes.
    pub open spec fn release(self, key: u64) -> BatchWorld {
        if self.w.s.executing.contains_key(key) {
            self.unlock(key)
        } else {
            self
        }
    }

    /// What a worker's answer means for the transaction.
    pub open spec fn decide(self, meta: PriorityId, response: ResponseModel) -> (
        BatchWorld,
        TxDecision,
    ) {
        match response {
            ResponseModel::Unprocessed => {
                let released = self.release(meta.key);
                let (w, decision) = released.w.unprocessed(meta);
                (BatchWorld { w, ..released }, decision)
            },
            ResponseModel::Execute(rep) => if self.w.s.executing.contains_key(meta.key) {
                let released = self.release(meta.key);
                let (w, decision) = released.w.executed(meta, rep);
                (BatchWorld { w, ..released }, decision)
            } else {
                (self, TxDecision::Keep)
            },
            ResponseModel::Check(rep, resolved_keys) => {
                let (checked, decision) = self.on_check(meta, rep, resolved_keys);
                (
                    BatchWorld {
                        w: World {
                            b: checked.w.b.resolved(meta.key, resolved_keys),
                            ..checked.w
                        },
                        ..checked
                    },
                    decision,
                )
            },
        }
    }

    /// A worker answered. Answers about transactions that were let go of, and
    /// executions that were not asked for, are ignored.
    #[verifier::opaque]
    pub open spec fn on_response(self, meta: PriorityId, response: ResponseModel) -> BatchWorld {
        if self.w.b.transactions.contains_key(meta.key) {
            match self.decide(meta, response) {
                (next, TxDecision::Keep) => next,
                (next, TxDecision::Drop) => BatchWorld { w: next.w.drop_tx(meta.key), ..next },
            }
        } else {
            self
        }
    }

    /// Workers gave the first `n` of these answers.
    pub open spec fn on_responses(self, responses: Seq<(PriorityId, ResponseModel)>, n: int) -> BatchWorld
        decreases n,
    {
        if n <= 0 {
            self
        } else {
            self.on_responses(responses, n - 1).on_response(
                responses[n - 1].0,
                responses[n - 1].1,
            )
        }
    }

    /// Whether a worker's answer makes sense: it does for the rest of the
    /// scheduler, and a transaction that was executed holds its locks.
    pub open spec fn accepts_answer(self, meta: PriorityId, response: ResponseModel) -> bool {
        &&& self.w.accepts_answer(meta, response)
        &&& self.w.ends_execution(meta, response) ==> self.holds_locks(meta.key)
    }

    /// Whether all these answers make sense, each after the ones before it.
    pub open spec fn accepts_answers(self, responses: Seq<(PriorityId, ResponseModel)>) -> bool {
        forall|i: int|
            0 <= i < responses.len() ==> (#[trigger] self.on_responses(
                responses,
                i,
            )).accepts_answer(responses[i].0, responses[i].1)
    }

    /// A transaction of the validator is scored: it waits to be checked, unless
    /// it has no score or names a filtered account.
    pub open spec fn admit_tpu(self, key: u64, score: Option<(u64, u64)>) -> (BatchWorld, TxDecision) {
        match score {
            None => (BatchWorld { w: self.w.count_tpu_err(), ..self }, TxDecision::Drop),
            Some((priority, cost)) => if self.w.filtered(key) {
                (BatchWorld { w: self.w.count_tpu_filtered(), ..self }, TxDecision::Drop)
            } else {
                let id = PriorityId { priority, cost, key };
                (
                    BatchWorld { w: self.w.push_unchecked(id).report_tpu(id), ..self },
                    TxDecision::Keep,
                )
            },
        }
    }

    /// A transaction arrived from the validator.
    #[verifier::opaque]
    pub open spec fn on_tpu(self, packet: Seq<u8>, simple_vote: bool) -> BatchWorld {
        match self.w.b.received(packet, simple_vote) {
            (b, Some(key)) => match (BatchWorld { w: World { b, ..self.w }, ..self }).admit_tpu(
                key,
                priority_and_cost(self.w.b.runtime, packet),
            ) {
                (next, TxDecision::Keep) => next,
                (next, TxDecision::Drop) => BatchWorld { w: next.w.drop_tx(key), ..next },
            },
            (b, None) => BatchWorld { w: World { b, ..self.w }, ..self },
        }
    }

    /// The first `n` transactions arrived from the validator.
    pub open spec fn on_tpu_upto(self, tpu: Seq<(Seq<u8>, bool)>, n: int) -> BatchWorld
        decreases n,
    {
        if n <= 0 {
            self
        } else {
            self.on_tpu_upto(tpu, n - 1).on_tpu(tpu[n - 1].0, tpu[n - 1].1)
        }
    }

    /// Takes in at most `max_count` of the transactions that wait, after making
    /// room for them.
    pub open spec fn drain_tpu(self, tpu: Seq<(Seq<u8>, bool)>, max_count: int) -> BatchWorld {
        let additional = if tpu.len() < max_count {
            tpu.len() as int
        } else {
            max_count
        };
        BatchWorld { w: self.w.make_room(additional as nat), ..self }.on_tpu_upto(tpu, additional)
    }

    /// A packet of the block engine is scored: it waits to be checked, unless it
    /// has no score or names a filtered account.
    pub open spec fn admit_packet(self, key: u64, score: Option<(u64, u64)>) -> BatchWorld {
        BatchWorld {
            w: match score {
                None => self.w.refuse_packet(key),
                Some((priority, cost)) => if self.w.filtered(key) {
                    self.w.filter_packet(key)
                } else {
                    self.w.admit_unchecked_packet(PriorityId { priority, cost, key })
                },
            },
            ..self
        }
    }

    /// A packet arrived from the block engine.
    pub open spec fn on_packet(self, packet: Seq<u8>) -> BatchWorld {
        match self.w.b.inserted(packet) {
            (b, Some(key)) => (BatchWorld { w: World { b, ..self.w }, ..self }).admit_packet(
                key,
                priority_and_cost(self.w.b.runtime, packet),
            ),
            (b, None) => BatchWorld { w: World { b, ..self.w }, ..self },
        }
    }

    /// A bundle arrived whose transactions have these costs and values.
    pub open spec fn admit_bundle(
        self,
        packets: Seq<Seq<u8>>,
        values: Seq<Option<(u64, u64)>>,
        now: u64,
    ) -> BatchWorld {
        match self.w.scan_bundle(packets, values) {
            (w, Some((keys, cost, value))) => BatchWorld {
                w: w.store_bundle(
                    BundleModel {
                        priority: bundle_priority_of(cost, value),
                        cost,
                        received_at: now,
                        keys,
                    },
                ),
                ..self
            },
            (w, None) => BatchWorld { w, ..self },
        }
    }

    /// A bundle arrived from the block engine.
    pub open spec fn on_bundle(self, packets: Seq<Seq<u8>>, now: u64) -> BatchWorld {
        self.admit_bundle(packets, bundle_values(self.w.b.runtime, packets), now)
    }

    /// The block engine sent something.
    #[verifier::opaque]
    pub open spec fn on_update(self, update: UpdateModel, now: u64) -> BatchWorld {
        match update {
            UpdateModel::BuilderConfig(_) => self,
            UpdateModel::TipConfig(config) => BatchWorld {
                w: World { s: CoreModel { tip_config: Some(config), ..self.w.s }, ..self.w },
                ..self
            },
            UpdateModel::RecentBlockhash(hash) => BatchWorld {
                w: World { s: CoreModel { recent_blockhash: hash, ..self.w.s }, ..self.w },
                ..self
            },
            UpdateModel::Packet(packet) => self.on_packet(packet),
            UpdateModel::Bundle(bundle) => self.on_bundle(bundle, now),
        }
    }

    /// The block engine sent the first `n` of these.
    pub open spec fn on_updates(self, updates: Seq<UpdateModel>, now: u64, n: int) -> BatchWorld
        decreases n,
    {
        if n <= 0 {
            self
        } else {
            self.on_updates(updates, now, n - 1).on_update(updates[n - 1], now)
        }
    }

    /// Tries to send the transaction of highest priority.
    pub open spec fn try_transaction(self, budget: u64, worker: usize) -> (
        BatchWorld,
        u64,
        Seq<KeyedTransactionMeta>,
    ) {
        let tx = self.w.s.checked.last();
        if tx.cost > budget || !self.can_lock(tx.key) {
            (self, budget, Seq::empty())
        } else {
            let locked = self.lock(tx.key);
            let batch = seq![KeyedTransactionMeta { key: tx.key, meta: tx }];
            (
                BatchWorld {
                    w: World {
                        s: CoreModel {
                            checked: locked.w.s.checked.drop_last(),
                            ..locked.w.s
                        },
                        b: locked.w.b.scheduled(
                            BatchModel {
                                worker,
                                transactions: batch,
                                max_working_slot: (locked.w.b.progress.current_slot + 1) as u64,
                                flags: EXECUTE_FLAGS,
                            },
                        ),
                    },
                    ..locked
                },
                (budget - tx.cost) as u64,
                batch,
            )
        }
    }

    /// Whether the locks of all transactions can be granted.
    pub open spec fn can_lock_keys(self, keys: Seq<u64>) -> bool {
        forall|i: int| 0 <= i < keys.len() ==> self.can_lock(#[trigger] keys[i])
    }

    /// Tries to send the bundle of highest priority.
    pub open spec fn try_bundle(self, budget: u64, worker: usize) -> (
        BatchWorld,
        u64,
        Seq<KeyedTransactionMeta>,
    ) {
        let bundle = self.w.s.bundles.last();
        if bundle.cost > budget || !self.can_lock_keys(bundle.keys) {
            (self, budget, Seq::empty())
        } else {
            let locked = self.lock_upto(bundle.keys, bundle.keys.len() as int);
            let batch = bundle_message(bundle.keys, bundle.cost);
            (
                BatchWorld {
                    w: World {
                        s: CoreModel {
                            bundles: locked.w.s.bundles.drop_last(),
                            ..locked.w.s
                        },
                        b: locked.w.b.scheduled(
                            BatchModel {
                                worker,
                                transactions: batch,
                                max_working_slot: (locked.w.b.progress.current_slot + 1) as u64,
                                flags: EXECUTE_BUNDLE_FLAGS,
                            },
                        ),
                    },
                    ..locked
                },
                (budget - bundle.cost) as u64,
                batch,
            )
        }
    }

    /// Tries to send the best that waits: a bundle only if it beats every
    /// transaction.
    pub open spec fn try_best(self, budget: u64, worker: usize) -> (
        BatchWorld,
        u64,
        Seq<KeyedTransactionMeta>,
    ) {
        let checked = self.w.s.checked;
        let bundles = self.w.s.bundles;
        if checked.len() > 0 && (bundles.len() == 0 || checked.last().priority
            >= bundles.last().priority) {
            self.try_transaction(budget, worker)
        } else if bundles.len() > 0 {
            self.try_bundle(budget, worker)
        } else {
            (self, budget, Seq::empty())
        }
    }

    /// What was sent executes.
    pub open spec fn started(self, batch: Seq<KeyedTransactionMeta>) -> BatchWorld {
        if batch.len() == 0 {
            self
        } else {
            BatchWorld { w: self.w.start_batch(batch), ..self }
        }
    }

    /// Starts the transaction of highest priority, if that can be done.
    pub open spec fn schedule_transaction(self, budget: u64, worker: usize) -> (
        BatchWorld,
        u64,
        Seq<KeyedTransactionMeta>,
    ) {
        let (next, left, batch) = self.try_transaction(budget, worker);
        (next.started(batch), left, batch)
    }

    /// Starts the bundle of highest priority, if that can be done.
    pub open spec fn schedule_bundle(self, budget: u64, worker: usize) -> (
        BatchWorld,
        u64,
        Seq<KeyedTransactionMeta>,
    ) {
        let (next, left, batch) = self.try_bundle(budget, worker);
        (next.started(batch), left, batch)
    }

    /// Starts the best that waits, if that can be done.
    pub open spec fn schedule_best(self, budget: u64, worker: usize) -> (
        BatchWorld,
        u64,
        Seq<KeyedTransactionMeta>,
    ) {
        let (next, left, batch) = self.try_best(budget, worker);
        (next.started(batch), left, batch)
    }

    /// Gives each idle worker from `worker` on the best that waits, until the
    /// budget is used up or the best cannot be started.
    pub open spec fn execute_from(self, budget: u64, worker: int, n: int) -> BatchWorld
        decreases n - worker,
    {
        if worker >= n || budget == 0 {
            self
        } else if self.w.b.workers[worker].len != 0 {
            self.execute_from(budget, worker + 1, n)
        } else {
            let (next, left, batch) = self.try_best(budget, worker as usize);
            if batch.len() == 0 {
                next
            } else {
                BatchWorld { w: next.w.start_batch(batch), ..next }.execute_from(left, worker + 1, n)
            }
        }
    }

    /// Gives idle workers the best that waits, within the budget of the block.
    pub open spec fn schedule_execute(self) -> BatchWorld {
        self.execute_from(
            budget_of(
                self.w.b.progress,
                self.w.s.runtime.block_fill_cutoff,
                self.w.s.in_flight_cus,
            ) as u64,
            EXECUTE_WORKER_START as int,
            self.w.b.workers.len() as int,
        )
    }

    /// Schedules what there is to check and, while the validator leads, what
    /// there is to execute.
    pub open spec fn schedule(self, is_leader: bool) -> BatchWorld {
        let checks = BatchWorld { w: self.w.schedule_checks(), ..self };
        if is_leader {
            let executed = checks.schedule_execute();
            BatchWorld { w: executed.w.start_recheck(), ..executed }
        } else {
            checks
        }
    }

    /// Whether the validator is leader.
    pub open spec fn is_leader(self) -> bool {
        self.w.b.progress.leader_state == LEADER_READY
    }

    /// Notes what arrived; and whether the validator is leader.
    pub open spec fn take_in(self, input: PollModel) -> (BatchWorld, bool) {
        let answered = self.check_slot_roll(input.progress, input.now).on_responses(
            input.responses,
            input.responses.len() as int,
        );
        let drained = answered.drain_tpu(
            input.tpu,
            round_limit(answered.is_leader()),
        );
        (
            BatchWorld { w: drained.w.drop_expired_bundles(input.now), ..drained }.on_updates(
                input.updates,
                input.now,
                input.updates.len() as int,
            ),
            answered.is_leader(),
        )
    }

    /// Whether the validator does not lead in a round.
    pub open spec fn follows(self, input: PollModel) -> bool {
        self.w.note_progress(input.progress, input.now).b.progress.leader_state != LEADER_READY
    }

    /// Why a round cannot be run, if so.
    pub open spec fn poll_error(self, input: PollModel) -> Option<PollError> {
        let progress = self.w.note_progress(input.progress, input.now).b.progress;
        if progress.current_slot > u64::MAX - 4 {
            Some(PollError::SlotTooHigh)
        } else if progress.current_slot_progress + self.w.s.runtime.block_fill_cutoff > u8::MAX {
            Some(PollError::FillTooHigh)
        } else if input.progress is None && input.now - self.w.s.last_progress_time
            >= self.w.s.runtime.progress_timeout {
            Some(PollError::Disconnected)
        } else if !self.check_slot_roll(input.progress, input.now).accepts_answers(input.responses) {
            Some(PollError::Answer)
        } else {
            None
        }
    }

    /// One round: notes what arrived, then schedules.
    pub open spec fn poll(self, input: PollModel) -> BatchWorld {
        let (taken, is_leader) = self.take_in(input);
        taken.schedule(is_leader)
    }
}

} // verus!
