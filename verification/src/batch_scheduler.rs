//! The batch scheduler.
//!
//! Starts the transactions and bundles of highest priority, one per idle
//! worker, within the budget of the block.

use vstd::prelude::*;

use crate::batch_laws::{lemma_broken_round_idle, lemma_only_leaders_execute};
use crate::batch_model::{bundle_value, bundle_values, tip_message, BatchWorld};
use crate::bridge::{
    Bridge, KeyedTransactionMeta, ProgressMessage, ScheduleBatch, TxDecision, EXECUTE_BUNDLE_FLAGS,
    EXECUTE_DROP_FLAGS, EXECUTE_FLAGS, EXECUTE_WORKER_START, LEADER_READY,
};
use crate::costs::{bundle_priority, calculate_cost_and_reward, calculate_priority, RuntimeState};
use crate::events::{EventEmitter, SlotStatsEvent, TransactionAction};
use crate::frames::{
    lemma_drain_tpu_steady, lemma_drop_expired_steady, lemma_mark_executing_steady,
    lemma_responses_steady, lemma_schedule_checks_steady, lemma_updates_steady, starts_nothing,
};
use crate::idle::idle_round;
use crate::jito::{packets, BuilderConfig, JitoArgs, JitoUpdate};
use crate::locks::{
    lockers_at, table_can_lock, table_lock, table_unlock, AccountLockers, LockersModel,
};
use crate::ordered::{increasing, OrderedMap};
use crate::pubkey::Pubkey;
use crate::queues::{
    build_bundle_message, lemma_bundle_message_cost, lemma_with_executing, message_cost,
    start_executing,
};
use crate::scheduler_core::{world, Core};
use crate::scheduler_model::{CheckStep, CoreArgs, CoreModel, World};
pub use crate::scheduler_model::RuntimeConfig;
use crate::shared::{BundleId, PriorityId, BUNDLE_MARKER};
use crate::tip_program::{Identity, TipDistributionArgs};
use crate::transaction::{optional_seq, sanitize_packet, try_extract_tip};
use crate::worker::{
    block_budget, round_limit, tpu_limit, CheckResponse, ExecutionResponse, PollError, PollInput,
    PollModel, ResponseModel, TpuPacket, WorkerAction, WorkerResponse, MAX_BLOCK_UNITS,
};

verus! {

/// What the batch scheduler is started with.
#[derive(Debug)]
pub struct BatchSchedulerArgs {
    pub tip: TipDistributionArgs,
    pub jito: JitoArgs,
    pub keypair: Identity,
    /// Accounts whose transactions are refused.
    pub filter_keys: Vec<Pubkey>,
    pub unchecked_capacity: usize,
    pub checked_capacity: usize,
    pub bundle_capacity: usize,
    pub runtime: RuntimeConfig,
}

impl BatchSchedulerArgs {
    /// What concerns the shared parts.
    pub open spec fn core_args(self) -> CoreArgs {
        CoreArgs {
            tip: self.tip,
            identity: self.keypair,
            filter_keys: self.filter_keys,
            unchecked_capacity: self.unchecked_capacity,
            checked_capacity: self.checked_capacity,
            bundle_capacity: self.bundle_capacity,
            runtime: self.runtime,
        }
    }
}

/// The batch scheduler.
pub struct BatchScheduler {
    pub core: Core,
    /// The accounts that executing transactions hold.
    pub in_flight_locks: OrderedMap<Pubkey, AccountLockers>,
}

/// The batch scheduler and its side of the connection.
pub open spec fn batch_world(scheduler: &BatchScheduler, bridge: &Bridge) -> BatchWorld {
    BatchWorld { w: world(&scheduler.core, bridge), locks: scheduler.in_flight_locks@ }
}

impl BatchScheduler {
    /// The queues and the lock table are in order.
    pub open spec fn wf(&self) -> bool {
        self.core.wf() && self.in_flight_locks.wf()
    }

    /// A scheduler that knows the block builder and has received nothing else.
    pub fn new_with_jito(
        events: Option<EventEmitter>,
        args: BatchSchedulerArgs,
        builder_config: BuilderConfig,
        now: u64,
    ) -> (scheduler: Self)
        ensures
            scheduler.wf(),
            scheduler.core@.started(args.core_args(), builder_config, events, false, now),
            scheduler.in_flight_locks@ == Map::<Pubkey, LockersModel>::empty(),
    {
        let core_args = CoreArgs {
            tip: args.tip,
            identity: args.keypair,
            filter_keys: args.filter_keys,
            unchecked_capacity: args.unchecked_capacity,
            checked_capacity: args.checked_capacity,
            bundle_capacity: args.bundle_capacity,
            runtime: args.runtime,
        };
        BatchScheduler {
            core: Core::new(core_args, builder_config, events, false, now),
            in_flight_locks: OrderedMap::new(),
        }
    }

    /// Changes the values that can be changed while the scheduler runs.
    pub fn set_runtime_config(
        &mut self,
        unchecked_capacity: usize,
        checked_capacity: usize,
        bundle_capacity: usize,
        block_fill_cutoff: u8,
        max_check_batches: usize,
        bundle_expiry: u64,
        progress_timeout: u64,
    )
        requires
            old(self).wf(),
        ensures
            final(self).wf(),
            final(self).in_flight_locks == old(self).in_flight_locks,
            final(self).core@ == (CoreModel {
                unchecked_capacity,
                checked_capacity,
                bundle_capacity,
                runtime: RuntimeConfig {
                    max_check_batches,
                    block_fill_cutoff,
                    progress_timeout,
                    bundle_expiry,
                },
                ..old(self).core@
            }),
    {
        self.core.set_runtime_config(
            unchecked_capacity,
            checked_capacity,
            bundle_capacity,
            RuntimeConfig { max_check_batches, block_fill_cutoff, progress_timeout, bundle_expiry },
        );
    }

    /// Whether a transaction's locks can be granted.
    pub fn can_lock(&self, bridge: &Bridge, tx_key: u64) -> (r: bool)
        requires
            self.wf(),
        ensures
            r == batch_world(self, bridge).can_lock(tx_key),
    {
        let locks = bridge.locks(tx_key);
        table_can_lock(&self.in_flight_locks, &locks)
    }

    /// Locks a transaction without checking for conflicts.
    pub fn lock(&mut self, bridge: &Bridge, tx_key: u64)
        requires
            old(self).wf(),
        ensures
            final(self).wf(),
            final(self).core == old(self).core,
            batch_world(final(self), bridge) == batch_world(old(self), bridge).lock(tx_key),
    {
        let locks = bridge.locks(tx_key);
        table_lock(&mut self.in_flight_locks, tx_key, &locks);
    }

    /// Whether a transaction holds every account that it locks.
    pub fn holds_locks(&self, bridge: &Bridge, tx_key: u64) -> (r: bool)
        requires
            self.wf(),
        ensures
            r == batch_world(self, bridge).holds_locks(tx_key),
    {
        let locks = bridge.locks(tx_key);
        let mut i: usize = 0;
        while i < locks.len()
            invariant
                0 <= i <= locks@.len(),
                self.wf(),
                locks@ == bridge@.locks(tx_key),
                forall|j: int| 0 <= j < i ==> lockers_at(self.in_flight_locks@, (#[trigger] locks@[j]).0).holds_as(
                    tx_key,
                    locks@[j].1,
                ),
            decreases locks@.len() - i,
        {
            let lock = locks[i];
            assert(batch_world(self, bridge).w.b.locks(tx_key)[i as int] == lock);
            let held: bool = match self.in_flight_locks.get(&lock.0) {
                Some(lockers) => lockers.is_held(tx_key, lock.1),
                None => false,
            };
            if !held {
                return false;
            }
            i = i + 1;
        }
        true
    }

    /// Whether a worker's answer makes sense.
    pub fn accepts_answer(&self, bridge: &Bridge, response: &WorkerResponse) -> (r: bool)
        requires
            self.wf(),
        ensures
            r == batch_world(self, bridge).accepts_answer(response@.0, response@.1),
    {
        if !self.core.accepts_answer(bridge, response) {
            return false;
        }
        !self.core.ends_execution(bridge, response) || self.holds_locks(bridge, response.meta.key)
    }

    /// Unlocks a transaction, releasing all its locks.
    ///
    /// It must hold them.
    pub fn unlock(&mut self, bridge: &Bridge, tx_key: u64)
        requires
            old(self).wf(),
            batch_world(old(self), bridge).holds_locks(tx_key),
        ensures
            final(self).wf(),
            final(self).core == old(self).core,
            batch_world(final(self), bridge) == batch_world(old(self), bridge).unlock(tx_key),
    {
        let locks = bridge.locks(tx_key);
        table_unlock(&mut self.in_flight_locks, tx_key, &locks);
    }

    /// Starts the transactions that make this validator the receiver of tips,
    /// if their locks can be granted.
    fn start_tips(&mut self, bridge: &mut Bridge, init: u64, change: u64)
        requires
            old(self).wf(),
            old(self).core@.slot <= u64::MAX - 4,
        ensures
            final(self).wf(),
            batch_world(final(self), final(bridge)) == batch_world(
                old(self),
                old(bridge),
            ).start_tips(init, change),
    {
        if !self.can_lock(bridge, init) || !self.can_lock(bridge, change) {
            bridge.drop_transaction(init);
            bridge.drop_transaction(change);
            return;
        }
        // Locking without checking lets the two lock the same accounts.
        self.lock(bridge, init);
        self.lock(bridge, change);
        proof {
            lemma_with_executing(self.core.executing_tx@, init, 0);
        }
        start_executing(&mut self.core.executing_tx, init, 0);
        proof {
            lemma_with_executing(self.core.executing_tx@, change, 0);
        }
        start_executing(&mut self.core.executing_tx, change, 0);
        let slot: u64 = self.core.slot;
        self.schedule_tip(bridge, init, slot);
        self.schedule_tip(bridge, change, slot);
    }

    fn schedule_tip(&self, bridge: &mut Bridge, key: u64, slot: u64)
        requires
            slot <= u64::MAX - 4,
        ensures
            final(bridge)@ == old(bridge)@.scheduled(tip_message(key, slot)),
    {
        let mut transactions: Vec<KeyedTransactionMeta> = Vec::new();
        transactions.push(
            KeyedTransactionMeta { key, meta: PriorityId { priority: BUNDLE_MARKER, cost: 0, key } },
        );
        let batch = ScheduleBatch {
            worker: EXECUTE_WORKER_START,
            transactions,
            max_working_slot: slot + 4,
            flags: EXECUTE_DROP_FLAGS,
        };
        assert(batch@ =~= tip_message(key, slot));
        bridge.schedule(batch);
    }

    /// Adds the transactions that make this validator the receiver of tips, and
    /// starts them.
    pub fn submit_tips(&mut self, bridge: &mut Bridge, init: &Vec<u8>, change: &Vec<u8>)
        requires
            old(self).wf(),
            old(self).core@.slot <= u64::MAX - 4,
        ensures
            final(self).wf(),
            batch_world(final(self), final(bridge)) == batch_world(
                old(self),
                old(bridge),
            ).submit_tips(init@, change@),
    {
        match bridge.insert_transaction(init.as_slice()) {
            Some(init_key) => match bridge.insert_transaction(change.as_slice()) {
                Some(change_key) => {
                    self.start_tips(bridge, init_key, change_key);
                },
                None => {
                    bridge.drop_transaction(init_key);
                },
            },
            None => {},
        }
    }

    /// Makes this validator the receiver of tips, if the transactions for that
    /// can be made.
    pub fn become_tip_receiver(&mut self, bridge: &mut Bridge)
        requires
            old(self).wf(),
            old(self).core@.slot <= u64::MAX - 4,
        ensures
            final(self).wf(),
            batch_world(final(self), final(bridge)) == batch_world(
                old(self),
                old(bridge),
            ).become_tip_receiver(),
    {
        match self.core.tip_transactions() {
            Some((init, change)) => {
                self.submit_tips(bridge, &init, &change);
            },
            None => {},
        }
    }

    /// Notes where the validator stands; moves on to its slot; and, if it has
    /// just become leader, makes it the receiver of tips.
    ///
    /// The validator must not have been silent for longer than allowed.
    pub fn check_slot_roll(&mut self, bridge: &mut Bridge, update: Option<ProgressMessage>, now: u64)
        requires
            old(self).wf(),
            update matches Some(progress) ==> progress.current_slot <= u64::MAX - 4,
            update is None ==> old(bridge)@.progress.current_slot <= u64::MAX - 4,
            update is None ==> now - old(self).core@.last_progress_time < old(
                self,
            ).core@.runtime.progress_timeout,
        ensures
            final(self).wf(),
            batch_world(final(self), final(bridge)) == batch_world(
                old(self),
                old(bridge),
            ).check_slot_roll(update, now),
    {
        self.core.note_progress(bridge, update, now);
        let becomes_leader: bool = bridge.progress.leader_state == LEADER_READY
            && !self.core.slot_stats.was_leader_ready;
        self.core.roll_slot(bridge);
        if becomes_leader {
            proof {
                lemma_roll_slot(world(&old(self).core, old(bridge)).note_progress(update, now));
            }
            self.core.report_leader(bridge);
            self.become_tip_receiver(bridge);
        }
    }

    /// A transaction was checked.
    pub fn on_check(
        &mut self,
        bridge: &mut Bridge,
        meta: PriorityId,
        rep: &CheckResponse,
        resolved_keys: &Option<Vec<Pubkey>>,
    ) -> (r: TxDecision)
        requires
            old(self).wf(),
            rep.consistent() || old(self).core@.executing.contains_key(meta.key) || old(
                self,
            ).core@.deferred.contains(meta.triple()),
        ensures
            final(self).wf(),
            (batch_world(final(self), final(bridge)), r) == batch_world(
                old(self),
                old(bridge),
            ).on_check(meta, *rep, optional_seq(*resolved_keys)),
    {
        match self.core.begin_check(bridge, meta, rep, resolved_keys) {
            CheckStep::Done(decision) => decision,
            CheckStep::Admit => {
                // The new transaction may be of lower priority than the one that
                // makes room for it.
                if self.core.pending_len() >= self.core.checked_capacity as u128 {
                    if self.core.evict_checked(bridge) {
                        self.core.slot_stats.check_evict =
                            self.core.slot_stats.check_evict.wrapping_add(1);
                    }
                }
                self.core.insert_checked(bridge, meta);
                self.core.emit_tx_event(
                    bridge,
                    meta.key,
                    meta.priority,
                    TransactionAction::CheckOk,
                );
                self.core.slot_stats.check_ok = self.core.slot_stats.check_ok.wrapping_add(1);
                TxDecision::Keep
            },
        }
    }

    /// A transaction was executed, or could not be.
    pub fn on_execute(&mut self, bridge: &mut Bridge, meta: PriorityId, rep: ExecutionResponse) -> (r:
        TxDecision)
        requires
            old(self).wf(),
            old(self).core@.executing.contains_key(meta.key),
            old(self).core@.executing[meta.key] == meta.cost,
            batch_world(old(self), old(bridge)).holds_locks(meta.key),
        ensures
            final(self).wf(),
            ({
                let released = batch_world(old(self), old(bridge)).unlock(meta.key);
                let (w, decision) = released.w.executed(meta, rep);
                batch_world(final(self), final(bridge)) == (BatchWorld { w, ..released }) && r
                    == decision
            }),
    {
        self.unlock(bridge, meta.key);
        self.core.on_executed(bridge, meta, rep)
    }

    /// A worker answered.
    pub fn on_response(&mut self, bridge: &mut Bridge, response: WorkerResponse)
        requires
            old(self).wf(),
            batch_world(old(self), old(bridge)).accepts_answer(response@.0, response@.1),
        ensures
            final(self).wf(),
            batch_world(final(self), final(bridge)) == batch_world(
                old(self),
                old(bridge),
            ).on_response(response@.0, response@.1),
    {
        reveal(BatchWorld::on_response);
        let meta = response.meta;
        if !bridge.transactions.contains_key(&meta.key) {
            return;
        }
        let decision = match response.response {
            WorkerAction::Unprocessed => {
                if self.core.executing_tx.contains_key(&meta.key) {
                    self.unlock(bridge, meta.key);
                }
                self.core.on_unprocessed(bridge, meta)
            },
            WorkerAction::Execute(rep) => {
                if !self.core.executing_tx.contains_key(&meta.key) {
                    return;
                }
                self.on_execute(bridge, meta, rep)
            },
            WorkerAction::Check(rep, resolved_keys) => {
                let decision = self.on_check(bridge, meta, &rep, &resolved_keys);
                bridge.resolve_keys(meta.key, resolved_keys);
                decision
            },
        };
        match decision {
            TxDecision::Keep => {},
            TxDecision::Drop => {
                bridge.drop_transaction(meta.key);
            },
        }
    }

    /// Workers answered.
    pub fn drain_worker_responses(&mut self, bridge: &mut Bridge, responses: Vec<WorkerResponse>)
        requires
            old(self).wf(),
            batch_world(old(self), old(bridge)).accepts_answers(
                responses@.map_values(|r: WorkerResponse| r@),
            ),
        ensures
            final(self).wf(),
            batch_world(final(self), final(bridge)) == batch_world(
                old(self),
                old(bridge),
            ).on_responses(
                responses@.map_values(|r: WorkerResponse| r@),
                responses@.len() as int,
            ),
    {
        let ghost start = batch_world(self, bridge);
        let ghost all = responses@;
        let ghost models = all.map_values(|r: WorkerResponse| r@);
        let ghost mut done: int = 0;
        for response in it: responses
            invariant
                self.wf(),
                it.seq() == all,
                models == all.map_values(|r: WorkerResponse| r@),
                start.accepts_answers(models),
                done == it.index(),
                batch_world(self, bridge) == start.on_responses(models, done),
        {
            assert(response == all[done]);
            assert(models[done] == response@);
            self.on_response(bridge, response);
            proof {
                done = done + 1;
            }
        }
    }

    /// A transaction of the validator is scored: it waits to be checked, unless
    /// it has no score or names a filtered account.
    pub fn admit_tpu(&mut self, bridge: &mut Bridge, key: u64, score: Option<(u64, u64)>) -> (r:
        TxDecision)
        requires
            old(self).wf(),
        ensures
            final(self).wf(),
            (batch_world(final(self), final(bridge)), r) == batch_world(
                old(self),
                old(bridge),
            ).admit_tpu(key, score),
    {
        match score {
            Some((priority, cost)) => {
                if self.core.should_filter_static(bridge, key) {
                    self.core.count_tpu_filtered();
                    return TxDecision::Drop;
                }
                let id = PriorityId { priority, cost, key };
                self.core.push_unchecked(id);
                self.core.report_tpu(bridge, id);
                TxDecision::Keep
            },
            None => {
                self.core.count_tpu_err();
                TxDecision::Drop
            },
        }
    }

    /// A transaction arrived from the validator.
    pub fn on_tpu(&mut self, bridge: &mut Bridge, packet: &Vec<u8>, simple_vote: bool)
        requires
            old(self).wf(),
        ensures
            final(self).wf(),
            batch_world(final(self), final(bridge)) == batch_world(old(self), old(bridge)).on_tpu(
                packet@,
                simple_vote,
            ),
    {
        reveal(BatchWorld::on_tpu);
        match bridge.receive_transaction(packet.as_slice(), simple_vote) {
            Some(key) => {
                let score = calculate_priority(&bridge.runtime, packet.as_slice());
                match self.admit_tpu(bridge, key, score) {
                    TxDecision::Keep => {},
                    TxDecision::Drop => {
                        bridge.drop_transaction(key);
                    },
                }
            },
            None => {},
        }
    }

    /// Takes in at most `max_count` of the transactions that wait, after making
    /// room for them.
    pub fn drain_tpu(&mut self, bridge: &mut Bridge, tpu: &Vec<TpuPacket>, max_count: usize)
        requires
            old(self).wf(),
        ensures
            final(self).wf(),
            batch_world(final(self), final(bridge)) == batch_world(
                old(self),
                old(bridge),
            ).drain_tpu(tpu@.map_values(|t: TpuPacket| t@), max_count as int),
    {
        let ghost models = tpu@.map_values(|t: TpuPacket| t@);
        let additional: usize = if tpu.len() < max_count { tpu.len() } else { max_count };
        self.core.make_room(bridge, additional);
        let ghost start = batch_world(self, bridge);
        let mut i: usize = 0;
        while i < additional
            invariant
                0 <= i <= additional <= tpu@.len(),
                self.wf(),
                models == tpu@.map_values(|t: TpuPacket| t@),
                batch_world(self, bridge) == start.on_tpu_upto(models, i as int),
            decreases additional - i,
        {
            assert(models[i as int] == tpu@[i as int]@);
            self.on_tpu(bridge, &tpu[i].packet, tpu[i].simple_vote);
            i = i + 1;
        }
    }

    /// A packet of the block engine is scored: it waits to be checked, unless it
    /// has no score or names a filtered account.
    pub fn admit_packet(&mut self, bridge: &mut Bridge, key: u64, score: Option<(u64, u64)>)
        requires
            old(self).wf(),
        ensures
            final(self).wf(),
            batch_world(final(self), final(bridge)) == batch_world(
                old(self),
                old(bridge),
            ).admit_packet(key, score),
    {
        match score {
            Some((priority, cost)) => {
                if self.core.should_filter_static(bridge, key) {
                    self.core.filter_packet(bridge, key);
                } else {
                    self.core.admit_unchecked_packet(bridge, PriorityId { priority, cost, key });
                }
            },
            None => {
                self.core.refuse_packet(bridge, key);
            },
        }
    }

    /// A packet arrived from the block engine.
    pub fn on_packet(&mut self, bridge: &mut Bridge, packet: &Vec<u8>)
        requires
            old(self).wf(),
        ensures
            final(self).wf(),
            batch_world(final(self), final(bridge)) == batch_world(
                old(self),
                old(bridge),
            ).on_packet(packet@),
    {
        match bridge.insert_transaction(packet.as_slice()) {
            Some(key) => {
                let score = calculate_priority(&bridge.runtime, packet.as_slice());
                self.admit_packet(bridge, key, score);
            },
            None => {},
        }
    }

    /// A bundle arrived whose transactions have these costs and values.
    pub fn admit_bundle(
        &mut self,
        bridge: &mut Bridge,
        bundle: &Vec<Vec<u8>>,
        values: &Vec<Option<(u64, u64)>>,
        now: u64,
    )
        requires
            old(self).wf(),
            bundle@.len() == values@.len(),
        ensures
            final(self).wf(),
            batch_world(final(self), final(bridge)) == batch_world(
                old(self),
                old(bridge),
            ).admit_bundle(packets(bundle@), values@, now),
    {
        match self.core.scan_bundle(bridge, bundle, values) {
            Some((keys, cost, value)) => {
                let bundle_id = BundleId {
                    priority: bundle_priority(cost, value),
                    cost,
                    received_at: now,
                    keys,
                };
                self.core.store_bundle(bridge, bundle_id);
            },
            None => {},
        }
    }

    /// A bundle arrived from the block engine.
    pub fn on_bundle(&mut self, bridge: &mut Bridge, bundle: &Vec<Vec<u8>>, now: u64)
        requires
            old(self).wf(),
        ensures
            final(self).wf(),
            batch_world(final(self), final(bridge)) == batch_world(
                old(self),
                old(bridge),
            ).on_bundle(packets(bundle@), now),
    {
        let values = value_bundle(&bridge.runtime, bundle);
        self.admit_bundle(bridge, bundle, &values, now);
    }

    /// The block engine sent something.
    pub fn on_update(&mut self, bridge: &mut Bridge, update: &JitoUpdate, now: u64)
        requires
            old(self).wf(),
        ensures
            final(self).wf(),
            batch_world(final(self), final(bridge)) == batch_world(
                old(self),
                old(bridge),
            ).on_update(update@, now),
    {
        reveal(BatchWorld::on_update);
        match update {
            JitoUpdate::BuilderConfig(_) => {},
            JitoUpdate::TipConfig(config) => {
                self.core.tip_config = Some(*config);
            },
            JitoUpdate::RecentBlockhash(hash) => {
                self.core.recent_blockhash = *hash;
            },
            JitoUpdate::Packet(packet) => {
                self.on_packet(bridge, packet);
            },
            JitoUpdate::Bundle(bundle) => {
                self.on_bundle(bridge, bundle, now);
            },
        }
    }

    /// Takes in what the block engine sent.
    pub fn drain_jito(&mut self, bridge: &mut Bridge, updates: &Vec<JitoUpdate>, now: u64)
        requires
            old(self).wf(),
        ensures
            final(self).wf(),
            batch_world(final(self), final(bridge)) == batch_world(
                old(self),
                old(bridge),
            ).on_updates(updates@.map_values(|u: JitoUpdate| u@), now, updates@.len() as int),
    {
        let ghost start = batch_world(self, bridge);
        let ghost models = updates@.map_values(|u: JitoUpdate| u@);
        let mut i: usize = 0;
        while i < updates.len()
            invariant
                0 <= i <= updates@.len(),
                self.wf(),
                models == updates@.map_values(|u: JitoUpdate| u@),
                batch_world(self, bridge) == start.on_updates(models, now, i as int),
            decreases updates@.len() - i,
        {
            assert(models[i as int] == updates@[i as int]@);
            self.on_update(bridge, &updates[i], now);
            i = i + 1;
        }
    }

    /// Tries to start the transaction of highest priority: what was sent for
    /// it, and what is left of the budget.
    pub fn try_schedule_transaction(&mut self, budget: u64, bridge: &mut Bridge, worker: usize) -> (r: (
        u64,
        Vec<KeyedTransactionMeta>,
    ))
        requires
            old(self).wf(),
            old(self).core@.checked.len() > 0,
            old(bridge)@.progress.current_slot < u64::MAX,
            old(self).core@.in_flight_cus + budget <= u64::MAX - MAX_BLOCK_UNITS,
        ensures
            final(self).wf(),
            (batch_world(final(self), final(bridge)), r.0, r.1@) == batch_world(
                old(self),
                old(bridge),
            ).schedule_transaction(budget, worker),
            r.0 + message_cost(r.1@, r.1@.len() as int) == budget,
            final(self).core@.in_flight_cus == old(self).core@.in_flight_cus + message_cost(
                r.1@,
                r.1@.len() as int,
            ),
            final(bridge)@.progress == old(bridge)@.progress,
            final(bridge)@.workers.len() == old(bridge)@.workers.len(),
    {
        let mut batch: Vec<KeyedTransactionMeta> = Vec::new();
        let tx = match self.core.checked_tx.last() {
            Some(tx) => *tx,
            None => {
                return (budget, batch);
            },
        };
        if tx.cost > budget || !self.can_lock(bridge, tx.key) {
            assert(batch@ =~= Seq::empty());
            return (budget, batch);
        }
        self.lock(bridge, tx.key);
        let entry = KeyedTransactionMeta { key: tx.key, meta: tx };
        batch.push(entry);
        let mut transactions: Vec<KeyedTransactionMeta> = Vec::new();
        transactions.push(entry);
        let message = ScheduleBatch {
            worker,
            transactions,
            max_working_slot: bridge.progress.current_slot + 1,
            flags: EXECUTE_FLAGS,
        };
        bridge.schedule(message);
        self.core.checked_tx.pop_last();
        proof {
            assert(batch@ =~= seq![entry]);
            assert(transactions@ =~= seq![entry]);
            assert(message_cost(batch@, 0) == 0);
            assert(message_cost(batch@, 1) == tx.cost);
        }
        proof {
            lemma_mark_executing_steady(world(&self.core, bridge), batch@, batch@.len() as int);
        }
        self.core.start_batch(bridge, &batch);
        (budget - tx.cost, batch)
    }

    /// Tries to start the bundle of highest priority: what was sent for it, and
    /// what is left of the budget.
    pub fn try_schedule_bundle(&mut self, budget: u64, bridge: &mut Bridge, worker: usize) -> (r: (
        u64,
        Vec<KeyedTransactionMeta>,
    ))
        requires
            old(self).wf(),
            old(self).core@.bundles.len() > 0,
            old(bridge)@.progress.current_slot < u64::MAX,
            old(self).core@.in_flight_cus + budget <= u64::MAX - MAX_BLOCK_UNITS,
        ensures
            final(self).wf(),
            (batch_world(final(self), final(bridge)), r.0, r.1@) == batch_world(
                old(self),
                old(bridge),
            ).schedule_bundle(budget, worker),
            r.0 + message_cost(r.1@, r.1@.len() as int) <= budget,
            final(self).core@.in_flight_cus == old(self).core@.in_flight_cus + message_cost(
                r.1@,
                r.1@.len() as int,
            ),
            final(bridge)@.progress == old(bridge)@.progress,
            final(bridge)@.workers.len() == old(bridge)@.workers.len(),
    {
        let none: Vec<KeyedTransactionMeta> = Vec::new();
        assert(none@ =~= Seq::empty());
        let fits: bool = match self.core.bundles.last() {
            Some(bundle) => bundle.cost <= budget && self.can_lock_keys(bridge, &bundle.keys),
            None => false,
        };
        if !fits {
            return (budget, none);
        }
        let bundle = match self.core.bundles.pop_last() {
            Some(bundle) => bundle,
            None => {
                return (budget, none);
            },
        };
        let ghost start = batch_world(old(self), bridge);
        let ghost popped = self.core@;
        let mut i: usize = 0;
        while i < bundle.keys.len()
            invariant
                0 <= i <= bundle.keys@.len(),
                self.wf(),
                bridge@ == old(bridge)@,
                self.core@ == popped,
                start.w.b == bridge@,
                start.lock_upto(bundle.keys@, i as int).w == start.w,
                self.in_flight_locks@ == start.lock_upto(bundle.keys@, i as int).locks,
            decreases bundle.keys@.len() - i,
        {
            self.lock(bridge, bundle.keys[i]);
            i = i + 1;
        }
        let batch = build_bundle_message(&bundle.keys, bundle.cost);
        let transactions = build_bundle_message(&bundle.keys, bundle.cost);
        let message = ScheduleBatch {
            worker,
            transactions,
            max_working_slot: bridge.progress.current_slot + 1,
            flags: EXECUTE_BUNDLE_FLAGS,
        };
        bridge.schedule(message);
        proof {
            if bundle.keys@.len() > 0 {
                lemma_bundle_message_cost(bundle.keys@, bundle.cost, bundle.keys@.len() as int);
            }
        }
        if batch.len() > 0 {
            proof {
                lemma_mark_executing_steady(world(&self.core, bridge), batch@, batch@.len() as int);
            }
            self.core.start_batch(bridge, &batch);
        }
        (budget - bundle.cost, batch)
    }

    fn can_lock_keys(&self, bridge: &Bridge, keys: &Vec<u64>) -> (r: bool)
        requires
            self.wf(),
        ensures
            r == batch_world(self, bridge).can_lock_keys(keys@),
    {
        let mut i: usize = 0;
        while i < keys.len()
            invariant
                0 <= i <= keys@.len(),
                self.wf(),
                forall|j: int| 0 <= j < i ==> batch_world(self, bridge).can_lock(#[trigger] keys@[j]),
            decreases keys@.len() - i,
        {
            if !self.can_lock(bridge, keys[i]) {
                assert(!batch_world(self, bridge).can_lock(keys@[i as int]));
                return false;
            }
            i = i + 1;
        }
        true
    }

    /// Tries to start the best that waits.
    fn try_schedule_best(&mut self, budget: u64, bridge: &mut Bridge, worker: usize) -> (r: (
        u64,
        Vec<KeyedTransactionMeta>,
    ))
        requires
            old(self).wf(),
            old(bridge)@.progress.current_slot < u64::MAX,
            old(self).core@.in_flight_cus + budget <= u64::MAX - MAX_BLOCK_UNITS,
        ensures
            final(self).wf(),
            (batch_world(final(self), final(bridge)), r.0, r.1@) == batch_world(
                old(self),
                old(bridge),
            ).schedule_best(budget, worker),
            r.0 + message_cost(r.1@, r.1@.len() as int) <= budget,
            final(self).core@.in_flight_cus == old(self).core@.in_flight_cus + message_cost(
                r.1@,
                r.1@.len() as int,
            ),
            final(bridge)@.progress == old(bridge)@.progress,
            final(bridge)@.workers.len() == old(bridge)@.workers.len(),
    {
        let tx: Option<u64> = match self.core.checked_tx.last() {
            Some(tx) => Some(tx.priority),
            None => None,
        };
        let bundle: Option<u64> = match self.core.bundles.last() {
            Some(bundle) => Some(bundle.priority),
            None => None,
        };
        match (tx, bundle) {
            (Some(tx), Some(bundle)) => {
                if tx >= bundle {
                    self.try_schedule_transaction(budget, bridge, worker)
                } else {
                    self.try_schedule_bundle(budget, bridge, worker)
                }
            },
            (Some(_), None) => self.try_schedule_transaction(budget, bridge, worker),
            (None, Some(_)) => self.try_schedule_bundle(budget, bridge, worker),
            (None, None) => {
                let none: Vec<KeyedTransactionMeta> = Vec::new();
                assert(none@ =~= Seq::empty());
                (budget, none)
            },
        }
    }

    /// Gives idle workers the best that waits, within the budget of the block.
    pub fn schedule_execute(&mut self, bridge: &mut Bridge)
        requires
            old(self).wf(),
            old(bridge)@.progress.current_slot < u64::MAX,
            old(bridge)@.progress.current_slot_progress + old(self).core@.runtime.block_fill_cutoff
                <= u8::MAX,
        ensures
            final(self).wf(),
            batch_world(final(self), final(bridge)) == batch_world(
                old(self),
                old(bridge),
            ).schedule_execute(),
    {
        let mut budget: u64 = block_budget(
            &bridge.progress,
            self.core.runtime.block_fill_cutoff,
            self.core.in_flight_cus,
        );
        let count: usize = bridge.workers.len();
        let ghost goal = batch_world(self, bridge).schedule_execute();
        let mut worker: usize = EXECUTE_WORKER_START;
        while worker < count
            invariant
                self.wf(),
                bridge@.workers.len() == count,
                bridge@.progress.current_slot < u64::MAX,
                self.core@.in_flight_cus + budget <= u64::MAX - MAX_BLOCK_UNITS,
                batch_world(self, bridge).execute_from(budget, worker as int, count as int) == goal,
                goal == batch_world(old(self), old(bridge)).schedule_execute(),
            decreases count - worker,
        {
            // Packing too fast: slow down.
            if budget == 0 {
                return;
            }
            // A worker that has a job gets no other.
            if !bridge.workers[worker].is_empty() {
                worker = worker + 1;
                continue;
            }
            let (left, batch) = self.try_schedule_best(budget, bridge, worker);
            if batch.len() == 0 {
                return;
            }
            budget = left;
            worker = worker + 1;
        }
    }

    /// One round: notes what arrived, then schedules.
    ///
    /// The validator must not have been silent for longer than allowed, and the
    /// workers' answers must make sense.
    pub fn poll(&mut self, bridge: &mut Bridge, input: PollInput)
        requires
            old(self).wf(),
            input.progress matches Some(progress) ==> progress.current_slot <= u64::MAX - 4
                && progress.current_slot_progress + old(self).core@.runtime.block_fill_cutoff
                <= u8::MAX,
            input.progress is None ==> old(bridge)@.progress.current_slot <= u64::MAX - 4 && old(
                bridge,
            )@.progress.current_slot_progress + old(self).core@.runtime.block_fill_cutoff <= u8::MAX,
            input.progress is None ==> input.now - old(self).core@.last_progress_time < old(
                self,
            ).core@.runtime.progress_timeout,
            batch_world(old(self), old(bridge)).check_slot_roll(
                input.progress,
                input.now,
            ).accepts_answers(input@.responses),
        ensures
            final(self).wf(),
            batch_world(final(self), final(bridge)) == batch_world(old(self), old(bridge)).poll(
                input@,
            ),
            batch_world(old(self), old(bridge)).follows(input@) ==> idle_round(
                batch_world(old(self), old(bridge)),
                batch_world(final(self), final(bridge)),
                input@,
            ),
    {
        let ghost start = batch_world(self, bridge);
        let ghost arrived = input@;
        proof {
            if start.follows(arrived) {
                lemma_only_leaders_execute(start, arrived);
            }
        }
        let is_leader: bool = self.take_in(bridge, input);
        self.schedule(bridge, is_leader);
    }

    /// One round, if it can be run.
    ///
    /// Nothing changes if it cannot, unless a worker's answer is the reason: that
    /// one and all after it are left aside. Either way, nothing starts to execute
    /// as long as the validator does not lead.
    pub fn try_poll(&mut self, bridge: &mut Bridge, input: PollInput) -> (r: Result<(), PollError>)
        requires
            old(self).wf(),
        ensures
            final(self).wf(),
            match r {
                Ok(()) => batch_world(old(self), old(bridge)).poll_error(input@) is None
                    && batch_world(final(self), final(bridge)) == batch_world(
                    old(self),
                    old(bridge),
                ).poll(input@),
                Err(error) => batch_world(old(self), old(bridge)).poll_error(input@) == Some(error)
                    && (error != PollError::Answer ==> batch_world(final(self), final(bridge))
                    == batch_world(old(self), old(bridge))),
            },
            batch_world(old(self), old(bridge)).follows(input@) ==> idle_round(
                batch_world(old(self), old(bridge)),
                batch_world(final(self), final(bridge)),
                input@,
            ),
            r == Err::<(), PollError>(PollError::Answer) ==> ({
                let rolled = batch_world(old(self), old(bridge)).check_slot_roll(
                    input.progress,
                    input.now,
                );
                let responses = input@.responses;
                exists|k: int|
                    0 <= k < responses.len() && batch_world(final(self), final(bridge)) == (
                    #[trigger] rolled.on_responses(responses, k)) && !rolled.on_responses(
                        responses,
                        k,
                    ).accepts_answer(responses[k].0, responses[k].1) && rolled.accepts_answers(
                        responses.take(k),
                    )
            }),
    {
        proof {
            reveal(starts_nothing);
        }
        let progress: ProgressMessage = match input.progress {
            Some(progress) => progress,
            None => bridge.progress,
        };
        if progress.current_slot > u64::MAX - 4 {
            return Err(PollError::SlotTooHigh);
        }
        if self.core.runtime.block_fill_cutoff > u8::MAX - progress.current_slot_progress {
            return Err(PollError::FillTooHigh);
        }
        let now: u64 = input.now;
        let last: u64 = self.core.last_progress_time;
        let timeout: u64 = self.core.runtime.progress_timeout;
        if input.progress.is_none() && now >= last && now - last >= timeout {
            return Err(PollError::Disconnected);
        }
        let ghost start = batch_world(self, bridge);
        let ghost arrived = input@;
        self.check_slot_roll(bridge, input.progress, now);
        let ghost rolled = batch_world(self, bridge);
        let ghost all = input.responses@;
        let ghost models = arrived.responses;
        let ghost mut done: int = 0;
        for response in it: input.responses
            invariant
                self.wf(),
                it.seq() == all,
                models == all.map_values(|r: WorkerResponse| r@),
                arrived == input@,
                arrived.responses == models,
                rolled == start.check_slot_roll(arrived.progress, arrived.now),
                start == batch_world(old(self), old(bridge)),
                increasing::<PriorityId>(start.w.s.checked),
                start.w.s.executing.dom().finite(),
                done == it.index(),
                batch_world(self, bridge) == rolled.on_responses(models, done),
                forall|i: int|
                    0 <= i < done ==> (#[trigger] rolled.on_responses(models, i)).accepts_answer(
                        models[i].0,
                        models[i].1,
                    ),
                start.poll_error(arrived) is None || start.poll_error(arrived) == Some(
                    PollError::Answer,
                ),
        {
            assert(response == all[done]);
            assert(models[done] == response@);
            if !self.accepts_answer(bridge, &response) {
                proof {
                    assert(!rolled.accepts_answers(models));
                    assert forall|i: int| 0 <= i < done implies (#[trigger] rolled.on_responses(
                        models.take(done),
                        i,
                    )).accepts_answer(models.take(done)[i].0, models.take(done)[i].1) by {
                        lemma_responses_prefix(rolled, models, done, i);
                        assert(rolled.on_responses(models, i).accepts_answer(
                            models[i].0,
                            models[i].1,
                        ));
                    }
                    assert(rolled.accepts_answers(models.take(done)));
                    assert(rolled.on_responses(models, done) == batch_world(self, bridge));
                    if start.follows(arrived) {
                        lemma_broken_round_idle(start, arrived, done);
                    }
                }
                return Err(PollError::Answer);
            }
            self.on_response(bridge, response);
            proof {
                done = done + 1;
            }
        }
        assert(rolled.accepts_answers(models));
        let is_leader: bool = self.take_arrivals(bridge, &input.tpu, &input.updates, now);
        proof {
            lemma_take_in_steady(start, arrived);
            if start.follows(arrived) {
                lemma_only_leaders_execute(start, arrived);
            }
        }
        self.schedule(bridge, is_leader);
        Ok(())
    }

    /// Notes what arrived from the validator and from the block engine; tells
    /// whether the validator is leader.
    fn take_arrivals(
        &mut self,
        bridge: &mut Bridge,
        tpu: &Vec<TpuPacket>,
        updates: &Vec<JitoUpdate>,
        now: u64,
    ) -> (is_leader: bool)
        requires
            old(self).wf(),
        ensures
            final(self).wf(),
            is_leader == batch_world(old(self), old(bridge)).is_leader(),
            ({
                let drained = batch_world(old(self), old(bridge)).drain_tpu(
                    tpu@.map_values(|t: TpuPacket| t@),
                    round_limit(is_leader),
                );
                batch_world(final(self), final(bridge)) == (BatchWorld {
                    w: drained.w.drop_expired_bundles(now),
                    ..drained
                }).on_updates(
                    updates@.map_values(|u: JitoUpdate| u@),
                    now,
                    updates@.len() as int,
                )
            }),
    {
        let is_leader: bool = bridge.progress.leader_state == LEADER_READY;
        let limit: usize = tpu_limit(is_leader);
        self.drain_tpu(bridge, tpu, limit);
        let ghost drained = batch_world(self, bridge);
        self.core.drop_expired_bundles(bridge, now);
        assert(batch_world(self, bridge) == (BatchWorld {
            w: drained.w.drop_expired_bundles(now),
            ..drained
        }));
        self.drain_jito(bridge, updates, now);
        is_leader
    }

    /// Notes what arrived; tells whether the validator is leader.
    fn take_in(&mut self, bridge: &mut Bridge, input: PollInput) -> (is_leader: bool)
        requires
            old(self).wf(),
            input.progress matches Some(progress) ==> progress.current_slot <= u64::MAX - 4,
            input.progress is None ==> old(bridge)@.progress.current_slot <= u64::MAX - 4,
            input.progress is None ==> input.now - old(self).core@.last_progress_time < old(
                self,
            ).core@.runtime.progress_timeout,
            batch_world(old(self), old(bridge)).check_slot_roll(
                input.progress,
                input.now,
            ).accepts_answers(input@.responses),
        ensures
            final(self).wf(),
            (batch_world(final(self), final(bridge)), is_leader) == batch_world(
                old(self),
                old(bridge),
            ).take_in(input@),
            final(bridge)@.progress == world(&old(self).core, old(bridge)).note_progress(
                input.progress,
                input.now,
            ).b.progress,
            final(self).core@.runtime == old(self).core@.runtime,
    {
        let ghost start = batch_world(self, bridge);
        let ghost arrived = input@;
        let now: u64 = input.now;
        self.check_slot_roll(bridge, input.progress, now);
        self.drain_worker_responses(bridge, input.responses);
        let is_leader: bool = self.take_arrivals(bridge, &input.tpu, &input.updates, now);
        proof {
            lemma_take_in_steady(start, arrived);
        }
        is_leader
    }

    /// Schedules what there is to check and, while the validator leads, what
    /// there is to execute.
    pub fn schedule(&mut self, bridge: &mut Bridge, is_leader: bool)
        requires
            old(self).wf(),
            old(bridge)@.progress.current_slot < u64::MAX,
            old(bridge)@.progress.current_slot_progress + old(self).core@.runtime.block_fill_cutoff
                <= u8::MAX,
        ensures
            final(self).wf(),
            batch_world(final(self), final(bridge)) == batch_world(old(self), old(bridge)).schedule(
                is_leader,
            ),
    {
        proof {
            lemma_schedule_checks_steady(world(&self.core, bridge));
        }
        self.core.schedule_checks(bridge);
        if is_leader {
            self.schedule_execute(bridge);
            self.core.start_recheck();
        }
    }
}

/// Cost and value of a transaction of a bundle.
pub fn value_transaction(runtime: &RuntimeState, packet: &[u8]) -> (r: Option<(u64, u64)>)
    ensures
        r == bundle_value(runtime@, packet@),
{
    let (cost, reward) = match calculate_cost_and_reward(runtime, packet) {
        Some(pair) => pair,
        None => {
            return None;
        },
    };
    let fields = match sanitize_packet(packet) {
        Some(fields) => fields,
        None => {
            return None;
        },
    };
    let tip: u64 = match try_extract_tip(&fields) {
        Some(tip) => tip,
        None => {
            return None;
        },
    };
    match reward.checked_add(tip) {
        Some(value) => Some((cost, value)),
        None => None,
    }
}

/// Costs and values of the transactions of a bundle.
pub fn value_bundle(runtime: &RuntimeState, bundle: &Vec<Vec<u8>>) -> (values: Vec<
    Option<(u64, u64)>,
>)
    ensures
        values@ == bundle_values(runtime@, packets(bundle@)),
{
    let mut values: Vec<Option<(u64, u64)>> = Vec::new();
    let mut i: usize = 0;
    while i < bundle.len()
        invariant
            0 <= i <= bundle@.len(),
            values@.len() == i,
            forall|j: int| 0 <= j < i ==> values@[j] == bundle_value(runtime@, (#[trigger] bundle@[j])@),
        decreases bundle@.len() - i,
    {
        values.push(value_transaction(runtime, bundle[i].as_slice()));
        i = i + 1;
    }
    assert(values@ =~= bundle_values(runtime@, packets(bundle@)));
    values
}

/// Moving on leaves configuration, progress and transactions alone, and ends in
/// the validator's slot.
pub proof fn lemma_roll_slot(w: World)
    ensures
        w.roll_slot().s.slot == w.b.progress.current_slot,
        w.roll_slot().s.runtime == w.s.runtime,
        w.roll_slot().b.progress == w.b.progress,
        w.roll_slot().b.transactions == w.b.transactions,
{
    if w.b.progress.current_slot != w.s.slot {
        let reported = w.report_roll();
        let deferred = reported.s.deferred;
        let moved = World {
            s: CoreModel {
                slot: w.b.progress.current_slot,
                stats: SlotStatsEvent { was_leader_ready: false, ..reported.s.stats },
                deferred: Seq::empty(),
                ..reported.s
            },
            ..reported
        };
        lemma_restore_frame(moved, deferred, deferred.len() as int);
    }
}

proof fn lemma_restore_frame(w: World, deferred: Seq<(u64, u64, u64)>, n: int)
    ensures
        w.restore_upto(deferred, n).s.slot == w.s.slot,
        w.restore_upto(deferred, n).s.runtime == w.s.runtime,
        w.restore_upto(deferred, n).b.progress == w.b.progress,
        w.restore_upto(deferred, n).b.transactions == w.b.transactions,
    decreases n,
{
    if n > 0 {
        lemma_restore_frame(w, deferred, n - 1);
    }
}

/// The start of a round takes over the validator's progress and keeps the
/// configuration.
pub proof fn lemma_slot_roll_steady(b: BatchWorld, update: Option<ProgressMessage>, now: u64)
    ensures
        b.check_slot_roll(update, now).w.b.progress == b.w.note_progress(update, now).b.progress,
        b.check_slot_roll(update, now).w.s.runtime == b.w.s.runtime,
        b.check_slot_roll(update, now).w.s.slot == b.w.note_progress(
            update,
            now,
        ).b.progress.current_slot,
{
    lemma_roll_slot(b.w.note_progress(update, now));
}

/// Answers that come later change nothing in what the first ones led to.
proof fn lemma_responses_prefix(
    b: BatchWorld,
    responses: Seq<(PriorityId, ResponseModel)>,
    k: int,
    n: int,
)
    requires
        n <= k <= responses.len(),
    ensures
        b.on_responses(responses.take(k), n) == b.on_responses(responses, n),
    decreases n,
{
    if n > 0 {
        lemma_responses_prefix(b, responses, k, n - 1);
    }
}

/// Taking in what arrived changes neither configuration nor, once noted, the
/// validator's progress.
proof fn lemma_take_in_steady(b: BatchWorld, input: PollModel)
    ensures
        b.take_in(input).0.w.b.progress == b.w.note_progress(input.progress, input.now).b.progress,
        b.take_in(input).0.w.s.runtime == b.w.s.runtime,
{
    let now = input.now;
    lemma_slot_roll_steady(b, input.progress, now);
    let rolled = b.check_slot_roll(input.progress, now);
    lemma_responses_steady(rolled, input.responses, input.responses.len() as int);
    let answered = rolled.on_responses(input.responses, input.responses.len() as int);
    let limit: int = round_limit(answered.is_leader());
    lemma_drain_tpu_steady(answered, input.tpu, limit);
    let drained = answered.drain_tpu(input.tpu, limit);
    lemma_drop_expired_steady(drained.w, now);
    let fresh = BatchWorld { w: drained.w.drop_expired_bundles(now), ..drained };
    lemma_updates_steady(fresh, input.updates, now, input.updates.len() as int);
}

} // verus!
