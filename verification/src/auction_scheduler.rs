//! The auction scheduler.
//!
//! Transactions and bundles compete by the scores that an auction gives them.
//! The auction prices compute units, locks, time and space; its scores are
//! handed in. Messages start several transactions that do not conflict.

use vstd::prelude::*;

use crate::auction_engine::{holders_at, AuctionEngine, Holders};
use crate::auction_frames::{
    lemma_auction_drain_tpu_steady, lemma_auction_responses_steady, lemma_auction_roll_steady,
    lemma_auction_updates_steady, lemma_remove_checked_steady,
};
use crate::auction_laws::lemma_only_leaders_execute;
use crate::auction_model::{
    acquire_upto, auction_priority_of, bid_value, bid_values, capped_score, granted_prefix,
    pick_upto, picked_message, release_upto, rolled_back, scored, AuctionWorld, MAX_BATCH_SIZE, SEARCH_LIMIT,
};
use crate::batch_model::tip_message;
use crate::bridge::{
    Bridge, BridgeModel, KeyedTransactionMeta, ProgressMessage, ScheduleBatch, TxDecision,
    EXECUTE_BUNDLE_FLAGS, EXECUTE_DROP_FLAGS, EXECUTE_FLAGS, EXECUTE_WORKER_START, LEADER_READY,
};
use crate::costs::RuntimeState;
use crate::events::{EventEmitter, EvictReason, TransactionAction};
use crate::frames::{
    lemma_drop_expired_steady, lemma_mark_executing_steady, lemma_schedule_checks_steady,
};
use crate::idle::auction_idle_round;
use crate::jito::{packets, BuilderConfig, JitoArgs, JitoUpdate};
use crate::pubkey::Pubkey;
use crate::queues::{
    build_bundle_message, lemma_bundle_message_cost, lemma_with_executing, message_cost,
    start_executing,
};
use crate::scheduler_core::{world, Core};
use crate::scheduler_model::{CheckStep, CoreArgs, CoreModel, RuntimeConfig};
use crate::shared::{BundleId, PriorityId, BUNDLE_MARKER};
use crate::tip_program::{Identity, TipDistributionArgs};
use crate::transaction::{
    optional_seq, sanitize_packet, sanitized_transaction, try_extract_tip, TransactionState,
};
use crate::tx_costs::{costs_of, derive_costs, TxCosts};
use crate::worker::{
    block_budget, round_limit, tpu_limit, CheckResponse, ExecutionResponse, PollInput, PollModel,
    TpuPacket, WorkerAction, WorkerResponse, MAX_BLOCK_UNITS,
};

verus! {

/// Configuration for the scores of the auction.
#[derive(Debug, Clone, Copy, PartialEq, Eq, Structural)]
pub struct AuctionBatchConfig {
    /// Minimum score threshold: transactions below it are dropped, and with
    /// one of them its whole bundle. Defaults to 0.
    pub min_score: u64,
}

impl Default for AuctionBatchConfig {
    fn default() -> (r: Self)
        ensures
            r.min_score == 0,
    {
        AuctionBatchConfig { min_score: 0 }
    }
}

/// What the auction scheduler is started with.
#[derive(Debug)]
pub struct AuctionBatchSchedulerArgs {
    pub tip: TipDistributionArgs,
    pub jito: JitoArgs,
    pub keypair: Identity,
    /// Accounts whose transactions are refused.
    pub filter_keys: Vec<Pubkey>,
    pub unchecked_capacity: usize,
    pub checked_capacity: usize,
    pub bundle_capacity: usize,
    pub runtime: RuntimeConfig,
    pub scoring: AuctionBatchConfig,
}

impl AuctionBatchSchedulerArgs {
    /// What concerns the shared parts.
    pub open spec fn core_args(self) -> CoreArgs {
        CoreArgs {
            tip: self.tip,
            identity: self.keypair,
            filter_keys: self.filter_keys,
            unchecked_capacity: self.unchecked_capacity,
            checked_capacity: self.checked_capacity,
            bundle_capacity: self.bundle_capacity,
            runtime: self.runtime,
        }
    }
}

/// What the auction needs to know about a transaction to score it.
#[derive(Debug)]
pub struct Bid {
    pub costs: TxCosts,
    /// The accounts it locks (true = write, false = read).
    pub locks: Vec<(Pubkey, bool)>,
    /// The tip it pays, in lamports.
    pub tip: u64,
}

/// The auction scheduler.
pub struct AuctionBatchScheduler {
    pub core: Core,
    pub scoring: AuctionBatchConfig,
    pub auction_engine: AuctionEngine,
}

/// The auction scheduler and its side of the connection.
pub open spec fn auction_world(scheduler: &AuctionBatchScheduler, bridge: &Bridge) -> AuctionWorld {
    AuctionWorld {
        w: world(&scheduler.core, bridge),
        held: scheduler.auction_engine.lock_manager@,
        allocation: scheduler.auction_engine.cu_allocation,
        min_score: scheduler.scoring.min_score,
    }
}

impl AuctionBatchScheduler {
    /// The queues, the locks and the allocation are in order.
    pub open spec fn wf(&self) -> bool {
        self.core.wf() && self.auction_engine.wf()
    }

    /// A scheduler that knows the block builder and has received nothing else.
    pub fn new_with_jito(
        events: Option<EventEmitter>,
        args: AuctionBatchSchedulerArgs,
        builder_config: BuilderConfig,
        now: u64,
    ) -> (scheduler: Self)
        ensures
            scheduler.wf(),
            scheduler.core@.started(args.core_args(), builder_config, events, true, now),
            scheduler.scoring == args.scoring,
            scheduler.auction_engine.lock_manager@ == Map::<Pubkey, Map<u64, bool>>::empty(),
            scheduler.auction_engine.cu_allocation.max_cu == MAX_BLOCK_UNITS,
            scheduler.auction_engine.cu_allocation.committed == 0,
            scheduler.auction_engine.cu_allocation.tentative == 0,
    {
        let core_args = CoreArgs {
            tip: args.tip,
            identity: args.keypair,
            filter_keys: args.filter_keys,
            unchecked_capacity: args.unchecked_capacity,
            checked_capacity: args.checked_capacity,
            bundle_capacity: args.bundle_capacity,
            runtime: args.runtime,
        };
        AuctionBatchScheduler {
            core: Core::new(core_args, builder_config, events, true, now),
            scoring: args.scoring,
            auction_engine: AuctionEngine::new(MAX_BLOCK_UNITS),
        }
    }

    /// Changes the values that can be changed while the scheduler runs.
    pub fn set_runtime_config(
        &mut self,
        unchecked_capacity: usize,
        checked_capacity: usize,
        bundle_capacity: usize,
        block_fill_cutoff: u8,
        max_check_batches: usize,
        bundle_expiry: u64,
        progress_timeout: u64,
    )
        requires
            old(self).wf(),
        ensures
            final(self).wf(),
            final(self).auction_engine == old(self).auction_engine,
            final(self).scoring == old(self).scoring,
            final(self).core@ == (CoreModel {
                unchecked_capacity,
                checked_capacity,
                bundle_capacity,
                runtime: RuntimeConfig {
                    max_check_batches,
                    block_fill_cutoff,
                    progress_timeout,
                    bundle_expiry,
                },
                ..old(self).core@
            }),
    {
        self.core.set_runtime_config(
            unchecked_capacity,
            checked_capacity,
            bundle_capacity,
            RuntimeConfig { max_check_batches, block_fill_cutoff, progress_timeout, bundle_expiry },
        );
    }

    /// Checks a TX for lock conflicts without inserting locks.
    pub fn can_lock(&self, bridge: &Bridge, tx_key: u64) -> (r: bool)
        requires
            self.wf(),
        ensures
            r == auction_world(self, bridge).can_lock(tx_key),
    {
        let locks = bridge.locks(tx_key);
        self.auction_engine.lock_manager.try_acquire(&locks)
    }

    /// Locks a transaction without checking for conflicts.
    pub fn lock(&mut self, bridge: &Bridge, tx_key: u64)
        requires
            old(self).wf(),
        ensures
            final(self).wf(),
            final(self).core == old(self).core,
            auction_world(final(self), bridge) == auction_world(old(self), bridge).lock(tx_key),
    {
        let locks = bridge.locks(tx_key);
        self.auction_engine.lock_manager.acquire(tx_key, &locks);
    }

    /// Whether a transaction holds every account that it locks.
    pub fn holds_locks(&self, bridge: &Bridge, tx_key: u64) -> (r: bool)
        requires
            self.wf(),
        ensures
            r == auction_world(self, bridge).holds_locks(tx_key),
    {
        let locks = bridge.locks(tx_key);
        let mut i: usize = 0;
        while i < locks.len()
            invariant
                0 <= i <= locks@.len(),
                self.wf(),
                locks@ == bridge@.locks(tx_key),
                forall|j: int| 0 <= j < i ==> holders_at(self.auction_engine.lock_manager@, (#[trigger] locks@[j]).0).contains_key(
                    tx_key,
                ),
            decreases locks@.len() - i,
        {
            let lock = locks[i];
            assert(auction_world(self, bridge).w.b.locks(tx_key)[i as int] == lock);
            if !self.auction_engine.lock_manager.is_holder(tx_key, &lock.0) {
                return false;
            }
            i = i + 1;
        }
        true
    }

    /// Whether a worker's answer makes sense.
    pub fn accepts_answer(&self, bridge: &Bridge, response: &WorkerResponse) -> (r: bool)
        requires
            self.wf(),
        ensures
            r == auction_world(self, bridge).accepts_answer(response@.0, response@.1),
    {
        if !self.core.accepts_answer(bridge, response) {
            return false;
        }
        !self.core.ends_execution(bridge, response) || self.holds_locks(bridge, response.meta.key)
    }

    /// Unlocks a transaction, releasing all its locks.
    ///
    /// It must hold them.
    pub fn unlock(&mut self, bridge: &Bridge, tx_key: u64)
        requires
            old(self).wf(),
            auction_world(old(self), bridge).holds_locks(tx_key),
        ensures
            final(self).wf(),
            final(self).core == old(self).core,
            auction_world(final(self), bridge) == auction_world(old(self), bridge).unlock(tx_key),
    {
        let locks = bridge.locks(tx_key);
        self.auction_engine.release_locks(tx_key, &locks);
    }

    /// The cost units of the block that are neither used nor in flight.
    pub fn effective_remaining_cu(&self, bridge: &Bridge) -> (r: u64)
        requires
            bridge@.progress.remaining_cost_units <= MAX_BLOCK_UNITS,
            self.core@.in_flight_cus <= bridge@.progress.remaining_cost_units,
        ensures
            r == bridge@.progress.remaining_cost_units - self.core@.in_flight_cus,
    {
        let used_cu: u64 = MAX_BLOCK_UNITS - bridge.progress.remaining_cost_units;
        MAX_BLOCK_UNITS - used_cu - self.core.in_flight_cus
    }

    /// Starts the transactions that make this validator the receiver of tips,
    /// if the locks of the first can be granted.
    fn start_tips(&mut self, bridge: &mut Bridge, init: u64, change: u64)
        requires
            old(self).wf(),
            old(self).core@.slot <= u64::MAX - 4,
        ensures
            final(self).wf(),
            auction_world(final(self), final(bridge)) == auction_world(
                old(self),
                old(bridge),
            ).start_tips(init, change),
    {
        if !self.can_lock(bridge, init) {
            bridge.drop_transaction(init);
            bridge.drop_transaction(change);
            return;
        }
        // Locking without checking lets the two lock the same accounts.
        self.lock(bridge, init);
        self.lock(bridge, change);
        proof {
            lemma_with_executing(self.core.executing_tx@, init, 0);
        }
        start_executing(&mut self.core.executing_tx, init, 0);
        proof {
            lemma_with_executing(self.core.executing_tx@, change, 0);
        }
        start_executing(&mut self.core.executing_tx, change, 0);
        let slot: u64 = self.core.slot;
        self.schedule_tip(bridge, init, slot);
        self.schedule_tip(bridge, change, slot);
    }

    fn schedule_tip(&self, bridge: &mut Bridge, key: u64, slot: u64)
        requires
            slot <= u64::MAX - 4,
        ensures
            final(bridge)@ == old(bridge)@.scheduled(tip_message(key, slot)),
    {
        let mut transactions: Vec<KeyedTransactionMeta> = Vec::new();
        transactions.push(
            KeyedTransactionMeta { key, meta: PriorityId { priority: BUNDLE_MARKER, cost: 0, key } },
        );
        let batch = ScheduleBatch {
            worker: EXECUTE_WORKER_START,
            transactions,
            max_working_slot: slot + 4,
            flags: EXECUTE_DROP_FLAGS,
        };
        assert(batch@ =~= tip_message(key, slot));
        bridge.schedule(batch);
    }

    /// Adds the transactions that make this validator the receiver of tips, and
    /// starts them.
    pub fn submit_tips(&mut self, bridge: &mut Bridge, init: &Vec<u8>, change: &Vec<u8>)
        requires
            old(self).wf(),
            old(self).core@.slot <= u64::MAX - 4,
        ensures
            final(self).wf(),
            auction_world(final(self), final(bridge)) == auction_world(
                old(self),
                old(bridge),
            ).submit_tips(init@, change@),
    {
        match bridge.insert_transaction(init.as_slice()) {
            Some(init_key) => match bridge.insert_transaction(change.as_slice()) {
                Some(change_key) => {
                    self.start_tips(bridge, init_key, change_key);
                },
                None => {
                    bridge.drop_transaction(init_key);
                },
            },
            None => {},
        }
    }

    /// Makes this validator the receiver of tips, if the transactions for that
    /// can be made.
    pub fn become_tip_receiver(&mut self, bridge: &mut Bridge)
        requires
            old(self).wf(),
            old(self).core@.slot <= u64::MAX - 4,
        ensures
            final(self).wf(),
            auction_world(final(self), final(bridge)) == auction_world(
                old(self),
                old(bridge),
            ).become_tip_receiver(),
    {
        match self.core.tip_transactions() {
            Some((init, change)) => {
                self.submit_tips(bridge, &init, &change);
            },
            None => {},
        }
    }

    /// Notes where the validator stands; a validator that has been silent for
    /// too long is given the same time again.
    fn note_progress(&mut self, bridge: &mut Bridge, update: Option<ProgressMessage>, now: u64)
        requires
            old(self).wf(),
        ensures
            final(self).wf(),
            final(self).auction_engine == old(self).auction_engine,
            final(self).scoring == old(self).scoring,
            world(&final(self).core, final(bridge)) == world(
                &old(self).core,
                old(bridge),
            ).note_progress_or_starve(update, now),
    {
        match update {
            Some(_) => {
                self.core.note_progress(bridge, update, now);
            },
            None => {
                if now.saturating_sub(self.core.last_progress_time)
                    >= self.core.runtime.progress_timeout {
                    self.core.last_progress_time = now;
                }
            },
        }
    }

    /// Notes where the validator stands; moves on to its slot; and, if it has
    /// just become leader, makes it the receiver of tips.
    pub fn check_slot_roll(&mut self, bridge: &mut Bridge, update: Option<ProgressMessage>, now: u64)
        requires
            old(self).wf(),
            update matches Some(progress) ==> progress.current_slot <= u64::MAX - 4,
            update is None ==> old(bridge)@.progress.current_slot <= u64::MAX - 4,
        ensures
            final(self).wf(),
            auction_world(final(self), final(bridge)) == auction_world(
                old(self),
                old(bridge),
            ).check_slot_roll(update, now),
    {
        self.note_progress(bridge, update, now);
        let becomes_leader: bool = bridge.progress.leader_state == LEADER_READY
            && !self.core.slot_stats.was_leader_ready;
        self.core.roll_slot(bridge);
        if becomes_leader {
            proof {
                crate::batch_scheduler::lemma_roll_slot(
                    world(&old(self).core, old(bridge)).note_progress_or_starve(update, now),
                );
            }
            self.core.report_leader(bridge);
            self.become_tip_receiver(bridge);
        }
    }

    /// Finds a place among the transactions that wait to be executed.
    pub fn insert_checked_with_capacity(&mut self, bridge: &mut Bridge, meta: PriorityId) -> (r:
        TxDecision)
        requires
            old(self).wf(),
        ensures
            final(self).wf(),
            final(self).auction_engine == old(self).auction_engine,
            final(self).scoring == old(self).scoring,
            (world(&final(self).core, final(bridge)), r) == world(
                &old(self).core,
                old(bridge),
            ).insert_with_capacity(meta),
    {
        if self.core.pending_len() >= self.core.checked_capacity as u128 {
            let lowest: Option<u64> = match self.core.checked_tx.first() {
                Some(id) => Some(id.priority),
                None => None,
            };
            match lowest {
                Some(priority) => {
                    if meta.priority <= priority {
                        self.core.emit_tx_event(
                            bridge,
                            meta.key,
                            meta.priority,
                            TransactionAction::Evict { reason: EvictReason::CheckedCapacity },
                        );
                        self.core.slot_stats.check_evict =
                            self.core.slot_stats.check_evict.wrapping_add(1);
                        return TxDecision::Drop;
                    }
                },
                None => {},
            }
            if self.core.evict_checked(bridge) {
                self.core.slot_stats.check_evict =
                    self.core.slot_stats.check_evict.wrapping_add(1);
            }
        }
        self.core.insert_checked(bridge, meta);
        TxDecision::Keep
    }

    /// A transaction was checked.
    pub fn on_check(
        &mut self,
        bridge: &mut Bridge,
        meta: PriorityId,
        rep: &CheckResponse,
        resolved_keys: &Option<Vec<Pubkey>>,
    ) -> (r: TxDecision)
        requires
            old(self).wf(),
            rep.consistent() || old(self).core@.executing.contains_key(meta.key) || old(
                self,
            ).core@.deferred.contains(meta.triple()),
        ensures
            final(self).wf(),
            (auction_world(final(self), final(bridge)), r) == auction_world(
                old(self),
                old(bridge),
            ).on_check(meta, *rep, optional_seq(*resolved_keys)),
    {
        match self.core.begin_check(bridge, meta, rep, resolved_keys) {
            CheckStep::Done(decision) => decision,
            CheckStep::Admit => match self.insert_checked_with_capacity(bridge, meta) {
                TxDecision::Drop => TxDecision::Drop,
                TxDecision::Keep => {
                    self.core.emit_tx_event(
                        bridge,
                        meta.key,
                        meta.priority,
                        TransactionAction::CheckOk,
                    );
                    self.core.slot_stats.check_ok = self.core.slot_stats.check_ok.wrapping_add(1);
                    TxDecision::Keep
                },
            },
        }
    }

    /// A transaction was executed, or could not be.
    pub fn on_execute(&mut self, bridge: &mut Bridge, meta: PriorityId, rep: ExecutionResponse) -> (r:
        TxDecision)
        requires
            old(self).wf(),
            old(self).core@.executing.contains_key(meta.key),
            old(self).core@.executing[meta.key] == meta.cost,
            auction_world(old(self), old(bridge)).holds_locks(meta.key),
        ensures
            final(self).wf(),
            ({
                let released = auction_world(old(self), old(bridge)).unlock(meta.key);
                let (w, decision) = released.w.executed(meta, rep);
                auction_world(final(self), final(bridge)) == (AuctionWorld { w, ..released }) && r
                    == decision
            }),
    {
        self.unlock(bridge, meta.key);
        self.core.on_executed(bridge, meta, rep)
    }

    /// A worker answered.
    pub fn on_response(&mut self, bridge: &mut Bridge, response: WorkerResponse)
        requires
            old(self).wf(),
            auction_world(old(self), old(bridge)).accepts_answer(response@.0, response@.1),
        ensures
            final(self).wf(),
            auction_world(final(self), final(bridge)) == auction_world(
                old(self),
                old(bridge),
            ).on_response(response@.0, response@.1),
    {
        reveal(AuctionWorld::on_response);
        let meta = response.meta;
        if !bridge.transactions.contains_key(&meta.key) {
            return;
        }
        let decision = match response.response {
            WorkerAction::Unprocessed => {
                if self.core.executing_tx.contains_key(&meta.key) {
                    self.unlock(bridge, meta.key);
                }
                self.core.on_unprocessed(bridge, meta)
            },
            WorkerAction::Execute(rep) => {
                if !self.core.executing_tx.contains_key(&meta.key) {
                    return;
                }
                self.on_execute(bridge, meta, rep)
            },
            WorkerAction::Check(rep, resolved_keys) => {
                let decision = self.on_check(bridge, meta, &rep, &resolved_keys);
                bridge.resolve_keys(meta.key, resolved_keys);
                decision
            },
        };
        match decision {
            TxDecision::Keep => {},
            TxDecision::Drop => {
                bridge.drop_transaction(meta.key);
            },
        }
    }

    /// Workers answered.
    pub fn drain_worker_responses(&mut self, bridge: &mut Bridge, responses: Vec<WorkerResponse>)
        requires
            old(self).wf(),
            auction_world(old(self), old(bridge)).accepts_answers(
                responses@.map_values(|r: WorkerResponse| r@),
            ),
        ensures
            final(self).wf(),
            auction_world(final(self), final(bridge)) == auction_world(
                old(self),
                old(bridge),
            ).on_responses(
                responses@.map_values(|r: WorkerResponse| r@),
                responses@.len() as int,
            ),
    {
        let ghost start = auction_world(self, bridge);
        let ghost all = responses@;
        let ghost models = all.map_values(|r: WorkerResponse| r@);
        let ghost mut done: int = 0;
        for response in it: responses
            invariant
                self.wf(),
                it.seq() == all,
                models == all.map_values(|r: WorkerResponse| r@),
                start.accepts_answers(models),
                done == it.index(),
                auction_world(self, bridge) == start.on_responses(models, done),
        {
            assert(response == all[done]);
            assert(models[done] == response@);
            self.on_response(bridge, response);
            proof {
                done = done + 1;
            }
        }
    }

    /// The start of a round: moves on to the validator's slot and notes what
    /// workers answered. Tells whether the validator is leader.
    pub fn begin_round(
        &mut self,
        bridge: &mut Bridge,
        update: Option<ProgressMessage>,
        now: u64,
        responses: Vec<WorkerResponse>,
    ) -> (is_leader: bool)
        requires
            old(self).wf(),
            update matches Some(progress) ==> progress.current_slot <= u64::MAX - 4,
            update is None ==> old(bridge)@.progress.current_slot <= u64::MAX - 4,
            auction_world(old(self), old(bridge)).check_slot_roll(update, now).accepts_answers(
                responses@.map_values(|r: WorkerResponse| r@),
            ),
        ensures
            final(self).wf(),
            auction_world(final(self), final(bridge)) == auction_world(
                old(self),
                old(bridge),
            ).begin_round(update, now, responses@.map_values(|r: WorkerResponse| r@)),
            is_leader == auction_world(final(self), final(bridge)).is_leader(),
    {
        self.check_slot_roll(bridge, update, now);
        self.drain_worker_responses(bridge, responses);
        bridge.progress.leader_state == LEADER_READY
    }

    /// Whether a transaction looks up further accounts.
    fn has_lookups(&self, bridge: &Bridge, key: u64) -> (r: bool)
        ensures
            r == world(&self.core, bridge).has_lookups(key),
    {
        match bridge.transactions.get(&key) {
            Some(state) => state.fields.header.num_lookups != 0,
            None => false,
        }
    }

    /// A transaction of the validator is scored.
    pub fn admit_tpu(&mut self, bridge: &mut Bridge, key: u64, score: Option<(u64, u64)>) -> (r:
        TxDecision)
        requires
            old(self).wf(),
        ensures
            final(self).wf(),
            (auction_world(final(self), final(bridge)), r) == auction_world(
                old(self),
                old(bridge),
            ).admit_tpu(key, score),
    {
        match score {
            Some((priority, cost)) => {
                if self.core.should_filter_static(bridge, key) {
                    self.core.count_tpu_filtered();
                    return TxDecision::Drop;
                }
                let id = PriorityId { priority, cost, key };
                let decision = if self.has_lookups(bridge, key) {
                    self.core.push_unchecked(id);
                    TxDecision::Keep
                } else {
                    self.insert_checked_with_capacity(bridge, id)
                };
                self.core.report_tpu(bridge, id);
                decision
            },
            None => {
                self.core.count_tpu_err();
                TxDecision::Drop
            },
        }
    }

    /// A transaction arrived from the validator, and the auction gave it a
    /// score.
    pub fn on_tpu(&mut self, bridge: &mut Bridge, packet: &Vec<u8>, simple_vote: bool, score: u64)
        requires
            old(self).wf(),
        ensures
            final(self).wf(),
            auction_world(final(self), final(bridge)) == auction_world(
                old(self),
                old(bridge),
            ).on_tpu(packet@, simple_vote, score),
    {
        reveal(AuctionWorld::on_tpu);
        match bridge.receive_transaction(packet.as_slice(), simple_vote) {
            Some(key) => {
                let priority = calculate_priority(
                    &bridge.runtime,
                    packet.as_slice(),
                    score,
                    self.scoring.min_score,
                );
                match self.admit_tpu(bridge, key, priority) {
                    TxDecision::Keep => {},
                    TxDecision::Drop => {
                        bridge.drop_transaction(key);
                    },
                }
            },
            None => {},
        }
    }

    /// Takes in at most `max_count` of the transactions that wait, after making
    /// room for them.
    pub fn drain_tpu(
        &mut self,
        bridge: &mut Bridge,
        tpu: &Vec<TpuPacket>,
        scores: &Vec<u64>,
        max_count: usize,
    )
        requires
            old(self).wf(),
            tpu@.len() == scores@.len(),
        ensures
            final(self).wf(),
            auction_world(final(self), final(bridge)) == auction_world(
                old(self),
                old(bridge),
            ).drain_tpu(tpu@.map_values(|t: TpuPacket| t@), scores@, max_count as int),
    {
        let ghost models = tpu@.map_values(|t: TpuPacket| t@);
        let additional: usize = if tpu.len() < max_count { tpu.len() } else { max_count };
        self.core.make_room(bridge, additional);
        let ghost start = auction_world(self, bridge);
        let mut i: usize = 0;
        while i < additional
            invariant
                0 <= i <= additional <= tpu@.len(),
                tpu@.len() == scores@.len(),
                self.wf(),
                models == tpu@.map_values(|t: TpuPacket| t@),
                auction_world(self, bridge) == start.on_tpu_upto(models, scores@, i as int),
            decreases additional - i,
        {
            assert(models[i as int] == tpu@[i as int]@);
            self.on_tpu(bridge, &tpu[i].packet, tpu[i].simple_vote, scores[i]);
            i = i + 1;
        }
    }

    /// A packet of the block engine is scored.
    pub fn admit_packet(&mut self, bridge: &mut Bridge, key: u64, score: Option<(u64, u64)>)
        requires
            old(self).wf(),
        ensures
            final(self).wf(),
            auction_world(final(self), final(bridge)) == auction_world(
                old(self),
                old(bridge),
            ).admit_packet(key, score),
    {
        match score {
            Some((priority, cost)) => {
                if self.core.should_filter_static(bridge, key) {
                    self.core.filter_packet(bridge, key);
                    return;
                }
                let id = PriorityId { priority, cost, key };
                if self.has_lookups(bridge, key) {
                    self.core.admit_unchecked_packet(bridge, id);
                    return;
                }
                let decision = self.insert_checked_with_capacity(bridge, id);
                self.core.report_packet(bridge, id);
                match decision {
                    TxDecision::Keep => {},
                    TxDecision::Drop => {
                        bridge.drop_transaction(key);
                    },
                }
            },
            None => {
                self.core.refuse_packet(bridge, key);
            },
        }
    }

    /// A packet arrived from the block engine, and the auction gave it a score.
    pub fn on_packet(&mut self, bridge: &mut Bridge, packet: &Vec<u8>, score: u64)
        requires
            old(self).wf(),
        ensures
            final(self).wf(),
            auction_world(final(self), final(bridge)) == auction_world(
                old(self),
                old(bridge),
            ).on_packet(packet@, score),
    {
        match bridge.insert_transaction(packet.as_slice()) {
            Some(key) => {
                let priority = calculate_priority(
                    &bridge.runtime,
                    packet.as_slice(),
                    score,
                    self.scoring.min_score,
                );
                self.admit_packet(bridge, key, priority);
            },
            None => {},
        }
    }

    /// A bundle arrived whose transactions have these costs and values.
    pub fn admit_bundle(
        &mut self,
        bridge: &mut Bridge,
        bundle: &Vec<Vec<u8>>,
        values: &Vec<Option<(u64, u64)>>,
        now: u64,
    )
        requires
            old(self).wf(),
            bundle@.len() == values@.len(),
        ensures
            final(self).wf(),
            auction_world(final(self), final(bridge)) == auction_world(
                old(self),
                old(bridge),
            ).admit_bundle(packets(bundle@), values@, now),
    {
        match self.core.scan_bundle(bridge, bundle, values) {
            Some((keys, cost, value)) => {
                let bundle_id = BundleId {
                    priority: cap_score(value),
                    cost,
                    received_at: now,
                    keys,
                };
                self.core.store_bundle(bridge, bundle_id);
            },
            None => {},
        }
    }

    /// A bundle arrived from the block engine, and the auction gave its
    /// transactions scores.
    pub fn on_bundle(&mut self, bridge: &mut Bridge, bundle: &Vec<Vec<u8>>, scores: &Vec<u64>, now: u64)
        requires
            old(self).wf(),
            bundle@.len() == scores@.len(),
        ensures
            final(self).wf(),
            auction_world(final(self), final(bridge)) == auction_world(
                old(self),
                old(bridge),
            ).on_bundle(packets(bundle@), scores@, now),
    {
        let values = value_bids(&bridge.runtime, bundle, scores, self.scoring.min_score);
        self.admit_bundle(bridge, bundle, &values, now);
    }

    /// The block engine sent something, and the auction gave its transactions
    /// scores.
    pub fn on_update(&mut self, bridge: &mut Bridge, update: &JitoUpdate, scores: &Vec<u64>, now: u64)
        requires
            old(self).wf(),
            scores@.len() == update.transaction_count(),
        ensures
            final(self).wf(),
            auction_world(final(self), final(bridge)) == auction_world(
                old(self),
                old(bridge),
            ).on_update(update@, scores@, now),
    {
        reveal(AuctionWorld::on_update);
        match update {
            JitoUpdate::BuilderConfig(_) => {},
            JitoUpdate::TipConfig(config) => {
                self.core.tip_config = Some(*config);
            },
            JitoUpdate::RecentBlockhash(hash) => {
                self.core.recent_blockhash = *hash;
            },
            JitoUpdate::Packet(packet) => {
                self.on_packet(bridge, packet, scores[0]);
            },
            JitoUpdate::Bundle(bundle) => {
                self.on_bundle(bridge, bundle, scores, now);
            },
        }
    }

    /// Takes in what the block engine sent.
    pub fn drain_jito(
        &mut self,
        bridge: &mut Bridge,
        updates: &Vec<JitoUpdate>,
        scores: &Vec<Vec<u64>>,
        now: u64,
    )
        requires
            old(self).wf(),
            updates@.len() == scores@.len(),
            forall|i: int| 0 <= i < updates@.len() ==> (#[trigger] scores@[i])@.len()
                == updates@[i].transaction_count(),
        ensures
            final(self).wf(),
            auction_world(final(self), final(bridge)) == auction_world(
                old(self),
                old(bridge),
            ).on_updates(
                updates@.map_values(|u: JitoUpdate| u@),
                scores@.map_values(|s: Vec<u64>| s@),
                now,
                updates@.len() as int,
            ),
    {
        let ghost start = auction_world(self, bridge);
        let ghost models = updates@.map_values(|u: JitoUpdate| u@);
        let ghost score_models = scores@.map_values(|s: Vec<u64>| s@);
        let mut i: usize = 0;
        while i < updates.len()
            invariant
                0 <= i <= updates@.len(),
                updates@.len() == scores@.len(),
                forall|j: int| 0 <= j < updates@.len() ==> (#[trigger] scores@[j])@.len()
                    == updates@[j].transaction_count(),
                self.wf(),
                models == updates@.map_values(|u: JitoUpdate| u@),
                score_models == scores@.map_values(|s: Vec<u64>| s@),
                auction_world(self, bridge) == start.on_updates(models, score_models, now, i as int),
            decreases updates@.len() - i,
        {
            assert(models[i as int] == updates@[i as int]@);
            assert(score_models[i as int] == scores@[i as int]@);
            self.on_update(bridge, &updates[i], &scores[i], now);
            i = i + 1;
        }
    }

    /// Picks among the waiting transactions: what was picked, and what is left
    /// of the budget. The picked transactions take their locks.
    fn pick_transactions(&mut self, budget: u64, bridge: &Bridge) -> (r: (u64, Vec<PriorityId>))
        requires
            old(self).wf(),
        ensures
            final(self).wf(),
            final(self).core == old(self).core,
            final(self).scoring == old(self).scoring,
            final(self).auction_engine.cu_allocation == old(self).auction_engine.cu_allocation,
            ({
                let checked = old(self).core@.checked;
                let n = if checked.len() < SEARCH_LIMIT {
                    checked.len() as int
                } else {
                    SEARCH_LIMIT as int
                };
                let p = pick_upto(
                    old(self).auction_engine.lock_manager@,
                    bridge@,
                    checked,
                    budget,
                    n,
                );
                final(self).auction_engine.lock_manager@ == p.held && r.0 == p.budget && r.1@
                    == p.picked
            }),
    {
        let ghost held = self.auction_engine.lock_manager@;
        let ghost checked = self.core@.checked;
        let len: usize = self.core.checked_tx.len();
        let n: usize = if len < SEARCH_LIMIT { len } else { SEARCH_LIMIT };
        let mut left: u64 = budget;
        let mut picked: Vec<PriorityId> = Vec::new();
        let mut i: usize = 0;
        while i < n
            invariant
                0 <= i <= n <= len,
                n == (if checked.len() < SEARCH_LIMIT {
                    checked.len() as int
                } else {
                    SEARCH_LIMIT as int
                }),
                len == checked.len(),
                self.wf(),
                self.core == old(self).core,
                self.scoring == old(self).scoring,
                self.auction_engine.cu_allocation == old(self).auction_engine.cu_allocation,
                checked == self.core@.checked,
                held == old(self).auction_engine.lock_manager@,
                self.auction_engine.lock_manager@ == pick_upto(
                    held,
                    bridge@,
                    checked,
                    budget,
                    i as int,
                ).held,
                left == pick_upto(held, bridge@, checked, budget, i as int).budget,
                picked@ == pick_upto(held, bridge@, checked, budget, i as int).picked,
            decreases n - i,
        {
            if picked.len() >= MAX_BATCH_SIZE {
                proof {
                    lemma_pick_full(held, bridge@, checked, budget, i as int, n as int);
                }
                return (left, picked);
            }
            let tx = *self.core.checked_tx.at(len - 1 - i);
            if tx.cost <= left {
                let locks = bridge.locks(tx.key);
                if self.auction_engine.acquire_locks(tx.key, &locks) {
                    left = left - tx.cost;
                    picked.push(tx);
                }
            }
            i = i + 1;
        }
        (left, picked)
    }

    /// Tries to start waiting transactions, from the highest priority down:
    /// what was sent for them, and what is left of the budget.
    pub fn try_schedule_transaction(&mut self, budget: u64, bridge: &mut Bridge, worker: usize) -> (r: (
        u64,
        Vec<KeyedTransactionMeta>,
    ))
        requires
            old(self).wf(),
            old(bridge)@.progress.current_slot < u64::MAX,
            old(self).core@.in_flight_cus + budget <= u64::MAX - MAX_BLOCK_UNITS,
        ensures
            final(self).wf(),
            (auction_world(final(self), final(bridge)), r.0, r.1@) == auction_world(
                old(self),
                old(bridge),
            ).schedule_transactions(budget, worker),
            r.0 + message_cost(r.1@, r.1@.len() as int) == budget,
            final(self).core@.in_flight_cus == old(self).core@.in_flight_cus + message_cost(
                r.1@,
                r.1@.len() as int,
            ),
            final(bridge)@.progress == old(bridge)@.progress,
            final(bridge)@.workers.len() == old(bridge)@.workers.len(),
    {
        let ghost checked = self.core@.checked;
        let ghost n: int = if checked.len() < SEARCH_LIMIT {
            checked.len() as int
        } else {
            SEARCH_LIMIT as int
        };
        let ghost held = self.auction_engine.lock_manager@;
        let (left, picked) = self.pick_transactions(budget, bridge);
        proof {
            lemma_pick_cost(held, bridge@, checked, budget, n);
            lemma_pick_nothing(held, bridge@, checked, budget, n);
        }
        if picked.len() == 0 {
            let none: Vec<KeyedTransactionMeta> = Vec::new();
            proof {
                assert(none@ =~= Seq::empty());
                assert(message_cost(picked_message(picked@), 0) == 0);
                assert(auction_world(self, bridge) =~= auction_world(old(self), old(bridge)));
            }
            return (left, none);
        }
        let batch = build_picked_message(&picked);
        let transactions = build_picked_message(&picked);
        let message = ScheduleBatch {
            worker,
            transactions,
            max_working_slot: bridge.progress.current_slot + 1,
            flags: EXECUTE_FLAGS,
        };
        bridge.schedule(message);
        let ghost sent = world(&self.core, bridge);
        let mut i: usize = 0;
        while i < picked.len()
            invariant
                0 <= i <= picked@.len(),
                self.wf(),
                self.auction_engine.lock_manager@ == pick_upto(
                    held,
                    old(bridge)@,
                    checked,
                    budget,
                    n,
                ).held,
                self.scoring == old(self).scoring,
                self.auction_engine.cu_allocation == old(self).auction_engine.cu_allocation,
                world(&self.core, bridge) == sent.remove_checked_upto(picked@, i as int),
            decreases picked@.len() - i,
        {
            let tx = picked[i];
            self.core.remove_checked(bridge, &tx);
            i = i + 1;
        }
        proof {
            lemma_remove_checked_steady(sent, picked@, picked@.len() as int);
        }
        proof {
            lemma_mark_executing_steady(world(&self.core, bridge), batch@, batch@.len() as int);
        }
        self.core.start_batch(bridge, &batch);
        (left, batch)
    }

    /// Takes the locks of the transactions of a bundle, if all are granted;
    /// otherwise gives up again those that were taken.
    fn acquire_bundle(&mut self, bridge: &Bridge, keys: &Vec<u64>) -> (r: bool)
        requires
            old(self).wf(),
        ensures
            final(self).wf(),
            final(self).core == old(self).core,
            final(self).scoring == old(self).scoring,
            final(self).auction_engine.cu_allocation == old(self).auction_engine.cu_allocation,
            ({
                let held = old(self).auction_engine.lock_manager@;
                match acquire_upto(held, bridge@, keys@, keys@.len() as int) {
                    Some(taken) => r && final(self).auction_engine.lock_manager@ == taken,
                    None => !r && final(self).auction_engine.lock_manager@ == rolled_back(
                        held,
                        bridge@,
                        keys@,
                    ),
                }
            }),
    {
        let ghost held = self.auction_engine.lock_manager@;
        let mut i: usize = 0;
        while i < keys.len()
            invariant
                0 <= i <= keys@.len(),
                self.wf(),
                self.core == old(self).core,
                self.scoring == old(self).scoring,
                self.auction_engine.cu_allocation == old(self).auction_engine.cu_allocation,
                held == old(self).auction_engine.lock_manager@,
                acquire_upto(held, bridge@, keys@, i as int) == Some(
                    self.auction_engine.lock_manager@,
                ),
            decreases keys@.len() - i,
        {
            let locks = bridge.locks(keys[i]);
            if !self.auction_engine.acquire_locks(keys[i], &locks) {
                proof {
                    lemma_prefix(held, bridge@, keys@, i as int, keys@.len() as int);
                }
                self.release_first(bridge, keys, i);
                return false;
            }
            i = i + 1;
        }
        true
    }

    /// The first `n` transactions give up their locks.
    fn release_first(&mut self, bridge: &Bridge, keys: &Vec<u64>, n: usize)
        requires
            old(self).wf(),
            n <= keys@.len(),
        ensures
            final(self).wf(),
            final(self).core == old(self).core,
            final(self).scoring == old(self).scoring,
            final(self).auction_engine.cu_allocation == old(self).auction_engine.cu_allocation,
            final(self).auction_engine.lock_manager@ == release_upto(
                old(self).auction_engine.lock_manager@,
                bridge@,
                keys@,
                n as int,
            ),
    {
        let ghost held = self.auction_engine.lock_manager@;
        let mut i: usize = 0;
        while i < n
            invariant
                0 <= i <= n <= keys@.len(),
                self.wf(),
                self.core == old(self).core,
                self.scoring == old(self).scoring,
                self.auction_engine.cu_allocation == old(self).auction_engine.cu_allocation,
                self.auction_engine.lock_manager@ == release_upto(held, bridge@, keys@, i as int),
            decreases n - i,
        {
            let locks = bridge.locks(keys[i]);
            self.auction_engine.release_locks(keys[i], &locks);
            i = i + 1;
        }
    }

    fn can_lock_keys(&self, bridge: &Bridge, keys: &Vec<u64>) -> (r: bool)
        requires
            self.wf(),
        ensures
            r == auction_world(self, bridge).can_lock_keys(keys@),
    {
        let mut i: usize = 0;
        while i < keys.len()
            invariant
                0 <= i <= keys@.len(),
                self.wf(),
                forall|j: int| 0 <= j < i ==> auction_world(self, bridge).can_lock(
                    #[trigger] keys@[j],
                ),
            decreases keys@.len() - i,
        {
            if !self.can_lock(bridge, keys[i]) {
                assert(!auction_world(self, bridge).can_lock(keys@[i as int]));
                return false;
            }
            i = i + 1;
        }
        true
    }

    /// Tries to start the bundle of highest priority: what was sent for it, and
    /// what is left of the budget.
    pub fn try_schedule_bundle(&mut self, budget: u64, bridge: &mut Bridge, worker: usize) -> (r: (
        u64,
        Vec<KeyedTransactionMeta>,
    ))
        requires
            old(self).wf(),
            old(bridge)@.progress.current_slot < u64::MAX,
            old(self).core@.in_flight_cus + budget <= u64::MAX - MAX_BLOCK_UNITS,
        ensures
            final(self).wf(),
            (auction_world(final(self), final(bridge)), r.0, r.1@) == auction_world(
                old(self),
                old(bridge),
            ).schedule_bundle(budget, worker),
            r.0 + message_cost(r.1@, r.1@.len() as int) <= budget,
            final(self).core@.in_flight_cus == old(self).core@.in_flight_cus + message_cost(
                r.1@,
                r.1@.len() as int,
            ),
            final(bridge)@.progress == old(bridge)@.progress,
            final(bridge)@.workers.len() == old(bridge)@.workers.len(),
    {
        let none: Vec<KeyedTransactionMeta> = Vec::new();
        assert(none@ =~= Seq::empty());
        let fits: bool = match self.core.bundles.last() {
            Some(bundle) => bundle.cost <= budget && self.can_lock_keys(bridge, &bundle.keys),
            None => false,
        };
        if !fits {
            return (budget, none);
        }
        let (keys, cost) = match self.core.bundles.last() {
            Some(bundle) => (copy_keys(&bundle.keys), bundle.cost),
            None => {
                return (budget, none);
            },
        };
        if !self.acquire_bundle(bridge, &keys) {
            return (budget, none);
        }
        let batch = build_bundle_message(&keys, cost);
        let transactions = build_bundle_message(&keys, cost);
        let message = ScheduleBatch {
            worker,
            transactions,
            max_working_slot: bridge.progress.current_slot + 1,
            flags: EXECUTE_BUNDLE_FLAGS,
        };
        bridge.schedule(message);
        let ghost sent = world(&self.core, bridge);
        let ghost engine = self.auction_engine;
        let mut i: usize = 0;
        while i < keys.len()
            invariant
                0 <= i <= keys@.len(),
                self.wf(),
                self.core == old(self).core,
                self.scoring == old(self).scoring,
                self.auction_engine == engine,
                world(&self.core, bridge) == sent.dequeue_upto(keys@, i as int),
                bridge@.progress == old(bridge)@.progress,
                bridge@.workers.len() == old(bridge)@.workers.len(),
            decreases keys@.len() - i,
        {
            self.core.dequeue_transaction(bridge, keys[i]);
            i = i + 1;
        }
        self.core.bundles.pop_last();
        proof {
            if keys@.len() > 0 {
                lemma_bundle_message_cost(keys@, cost, keys@.len() as int);
            }
        }
        if batch.len() > 0 {
            proof {
                lemma_mark_executing_steady(world(&self.core, bridge), batch@, batch@.len() as int);
            }
            self.core.start_batch(bridge, &batch);
        }
        (budget - cost, batch)
    }

    /// Tries to start the best that waits, and the other kind if that could not
    /// be started.
    fn try_schedule_best(&mut self, budget: u64, bridge: &mut Bridge, worker: usize) -> (r: (
        u64,
        Vec<KeyedTransactionMeta>,
    ))
        requires
            old(self).wf(),
            old(bridge)@.progress.current_slot < u64::MAX,
            old(self).core@.in_flight_cus + budget <= u64::MAX - MAX_BLOCK_UNITS,
        ensures
            final(self).wf(),
            (auction_world(final(self), final(bridge)), r.0, r.1@) == auction_world(
                old(self),
                old(bridge),
            ).schedule_best(budget, worker),
            r.0 + message_cost(r.1@, r.1@.len() as int) <= budget,
            final(self).core@.in_flight_cus == old(self).core@.in_flight_cus + message_cost(
                r.1@,
                r.1@.len() as int,
            ),
            final(bridge)@.progress == old(bridge)@.progress,
            final(bridge)@.workers.len() == old(bridge)@.workers.len(),
    {
        let tx: Option<u64> = match self.core.checked_tx.last() {
            Some(tx) => Some(tx.priority),
            None => None,
        };
        let bundle: Option<u64> = match self.core.bundles.last() {
            Some(bundle) => Some(bundle.priority),
            None => None,
        };
        match (tx, bundle) {
            (Some(tx), Some(bundle)) => {
                if tx >= bundle {
                    let (left, batch) = self.try_schedule_transaction(budget, bridge, worker);
                    if batch.len() == 0 {
                        self.try_schedule_bundle(budget, bridge, worker)
                    } else {
                        (left, batch)
                    }
                } else {
                    let (left, batch) = self.try_schedule_bundle(budget, bridge, worker);
                    if batch.len() == 0 {
                        self.try_schedule_transaction(budget, bridge, worker)
                    } else {
                        (left, batch)
                    }
                }
            },
            (Some(_), None) => self.try_schedule_transaction(budget, bridge, worker),
            (None, _) => self.try_schedule_bundle(budget, bridge, worker),
        }
    }

    /// Gives idle workers the best that waits, within the budget of the block.
    pub fn schedule_execute(&mut self, bridge: &mut Bridge)
        requires
            old(self).wf(),
            old(bridge)@.progress.current_slot < u64::MAX,
            old(bridge)@.progress.current_slot_progress + old(self).core@.runtime.block_fill_cutoff
                <= u8::MAX,
        ensures
            final(self).wf(),
            auction_world(final(self), final(bridge)) == auction_world(
                old(self),
                old(bridge),
            ).schedule_execute(),
    {
        let mut budget: u64 = block_budget(
            &bridge.progress,
            self.core.runtime.block_fill_cutoff,
            self.core.in_flight_cus,
        );
        let count: usize = bridge.workers.len();
        let ghost goal = auction_world(self, bridge).schedule_execute();
        let mut worker: usize = EXECUTE_WORKER_START;
        while worker < count
            invariant
                self.wf(),
                bridge@.workers.len() == count,
                bridge@.progress.current_slot < u64::MAX,
                self.core@.in_flight_cus + budget <= u64::MAX - MAX_BLOCK_UNITS,
                auction_world(self, bridge).execute_from(budget, worker as int, count as int)
                    == goal,
                goal == auction_world(old(self), old(bridge)).schedule_execute(),
            decreases count - worker,
        {
            // Packing too fast: slow down.
            if budget == 0 {
                return;
            }
            // A worker that has a job gets no other.
            if !bridge.workers[worker].is_empty() {
                worker = worker + 1;
                continue;
            }
            let (left, batch) = self.try_schedule_best(budget, bridge, worker);
            if batch.len() == 0 {
                return;
            }
            budget = left;
            worker = worker + 1;
        }
    }

    /// Schedules what there is to check and, while the validator leads, what
    /// there is to execute.
    pub fn schedule(&mut self, bridge: &mut Bridge, is_leader: bool)
        requires
            old(self).wf(),
            old(bridge)@.progress.current_slot < u64::MAX,
            old(bridge)@.progress.current_slot_progress + old(self).core@.runtime.block_fill_cutoff
                <= u8::MAX,
        ensures
            final(self).wf(),
            auction_world(final(self), final(bridge)) == auction_world(
                old(self),
                old(bridge),
            ).schedule(is_leader),
    {
        proof {
            lemma_schedule_checks_steady(world(&self.core, bridge));
        }
        self.core.schedule_checks(bridge);
        if is_leader {
            self.schedule_execute(bridge);
            self.core.start_recheck();
        }
    }

    /// One round: notes what arrived, with the scores that the auction gave,
    /// then schedules.
    ///
    /// The workers' answers must make sense.
    pub fn poll(
        &mut self,
        bridge: &mut Bridge,
        input: PollInput,
        tpu_scores: &Vec<u64>,
        update_scores: &Vec<Vec<u64>>,
    )
        requires
            old(self).wf(),
            input.progress matches Some(progress) ==> progress.current_slot <= u64::MAX - 4
                && progress.current_slot_progress + old(self).core@.runtime.block_fill_cutoff
                <= u8::MAX,
            input.progress is None ==> old(bridge)@.progress.current_slot <= u64::MAX - 4 && old(
                bridge,
            )@.progress.current_slot_progress + old(self).core@.runtime.block_fill_cutoff <= u8::MAX,
            auction_world(old(self), old(bridge)).check_slot_roll(
                input.progress,
                input.now,
            ).accepts_answers(input@.responses),
            input.tpu@.len() == tpu_scores@.len(),
            input.updates@.len() == update_scores@.len(),
            forall|i: int| 0 <= i < update_scores@.len() ==> (#[trigger] update_scores@[i])@.len()
                == input.updates@[i].transaction_count(),
        ensures
            final(self).wf(),
            auction_world(final(self), final(bridge)) == auction_world(old(self), old(bridge)).poll(
                input@,
                tpu_scores@,
                update_scores@.map_values(|s: Vec<u64>| s@),
            ),
            auction_world(old(self), old(bridge)).follows(input@) ==> auction_idle_round(
                auction_world(old(self), old(bridge)),
                auction_world(final(self), final(bridge)),
                input@,
                tpu_scores@,
                update_scores@.map_values(|s: Vec<u64>| s@),
            ),
    {
        proof {
            let start = auction_world(self, bridge);
            if start.follows(input@) {
                lemma_only_leaders_execute(
                    start,
                    input@,
                    tpu_scores@,
                    update_scores@.map_values(|s: Vec<u64>| s@),
                );
            }
        }
        let is_leader: bool = self.take_in(bridge, input, tpu_scores, update_scores);
        self.schedule(bridge, is_leader);
    }

    /// Notes what arrived; tells whether the validator is leader.
    fn take_in(
        &mut self,
        bridge: &mut Bridge,
        input: PollInput,
        tpu_scores: &Vec<u64>,
        update_scores: &Vec<Vec<u64>>,
    ) -> (is_leader: bool)
        requires
            old(self).wf(),
            input.progress matches Some(progress) ==> progress.current_slot <= u64::MAX - 4,
            input.progress is None ==> old(bridge)@.progress.current_slot <= u64::MAX - 4,
            auction_world(old(self), old(bridge)).check_slot_roll(
                input.progress,
                input.now,
            ).accepts_answers(input@.responses),
            input.tpu@.len() == tpu_scores@.len(),
            input.updates@.len() == update_scores@.len(),
            forall|i: int| 0 <= i < update_scores@.len() ==> (#[trigger] update_scores@[i])@.len()
                == input.updates@[i].transaction_count(),
        ensures
            final(self).wf(),
            (auction_world(final(self), final(bridge)), is_leader) == auction_world(
                old(self),
                old(bridge),
            ).take_in(input@, tpu_scores@, update_scores@.map_values(|s: Vec<u64>| s@)),
            final(bridge)@.progress == world(&old(self).core, old(bridge)).note_progress(
                input.progress,
                input.now,
            ).b.progress,
            final(self).core@.runtime == old(self).core@.runtime,
    {
        let ghost start = auction_world(self, bridge);
        let ghost arrived = input@;
        let now: u64 = input.now;
        let is_leader: bool = self.begin_round(bridge, input.progress, now, input.responses);
        let limit: usize = tpu_limit(is_leader);
        self.drain_tpu(bridge, &input.tpu, tpu_scores, limit);
        let ghost drained = auction_world(self, bridge);
        self.core.drop_expired_bundles(bridge, now);
        let ghost fresh = auction_world(self, bridge);
        self.drain_jito(bridge, &input.updates, update_scores, now);
        proof {
            assert(fresh == (AuctionWorld { w: drained.w.drop_expired_bundles(now), ..drained }));
            lemma_take_in_steady(
                start,
                arrived,
                tpu_scores@,
                update_scores@.map_values(|s: Vec<u64>| s@),
            );
        }
        is_leader
    }
}

/// Taking in what arrived changes neither configuration nor, once noted, the
/// validator's progress.
proof fn lemma_take_in_steady(
    a: AuctionWorld,
    input: PollModel,
    tpu_scores: Seq<u64>,
    update_scores: Seq<Seq<u64>>,
)
    ensures
        a.take_in(input, tpu_scores, update_scores).0.w.b.progress == a.w.note_progress(
            input.progress,
            input.now,
        ).b.progress,
        a.take_in(input, tpu_scores, update_scores).0.w.s.runtime == a.w.s.runtime,
{
    let now = input.now;
    lemma_auction_roll_steady(a, input.progress, now);
    let rolled = a.check_slot_roll(input.progress, now);
    lemma_auction_responses_steady(rolled, input.responses, input.responses.len() as int);
    let answered = rolled.on_responses(input.responses, input.responses.len() as int);
    let limit: int = round_limit(answered.is_leader());
    lemma_auction_drain_tpu_steady(answered, input.tpu, tpu_scores, limit);
    let drained = answered.drain_tpu(input.tpu, tpu_scores, limit);
    lemma_drop_expired_steady(drained.w, now);
    let fresh = AuctionWorld { w: drained.w.drop_expired_bundles(now), ..drained };
    lemma_auction_updates_steady(
        fresh,
        input.updates,
        update_scores,
        now,
        input.updates.len() as int,
    );
}

/// A full message takes no more transactions.
proof fn lemma_pick_full(
    held: Holders,
    b: BridgeModel,
    checked: Seq<PriorityId>,
    budget: u64,
    n: int,
    m: int,
)
    requires
        0 <= n <= m,
        pick_upto(held, b, checked, budget, n).picked.len() >= MAX_BATCH_SIZE,
    ensures
        pick_upto(held, b, checked, budget, m) == pick_upto(held, b, checked, budget, n),
    decreases m,
{
    if n < m {
        lemma_pick_full(held, b, checked, budget, n, m - 1);
    }
}

/// What was picked costs what the budget lost.
pub proof fn lemma_pick_cost(
    held: Holders,
    b: BridgeModel,
    checked: Seq<PriorityId>,
    budget: u64,
    n: int,
)
    ensures
        ({
            let p = pick_upto(held, b, checked, budget, n);
            let batch = picked_message(p.picked);
            p.budget + message_cost(batch, batch.len() as int) == budget
        }),
    decreases n,
{
    if n > 0 {
        lemma_pick_cost(held, b, checked, budget, n - 1);
        let before = pick_upto(held, b, checked, budget, n - 1);
        let after = pick_upto(held, b, checked, budget, n);
        if after != before {
            let tx = checked[checked.len() - n];
            assert(after.picked == before.picked.push(tx));
            lemma_message_prefix(
                picked_message(before.picked),
                picked_message(after.picked),
                before.picked.len() as int,
            );
        }
    } else {
        assert(message_cost(picked_message(Seq::empty()), 0) == 0);
    }
}

proof fn lemma_message_prefix(a: Seq<KeyedTransactionMeta>, b: Seq<KeyedTransactionMeta>, n: int)
    requires
        0 <= n <= a.len(),
        n <= b.len(),
        forall|i: int| 0 <= i < n ==> a[i] == b[i],
    ensures
        message_cost(a, n) == message_cost(b, n),
    decreases n,
{
    if n > 0 {
        lemma_message_prefix(a, b, n - 1);
    }
}

/// If nothing was picked, no lock was taken and nothing was spent.
proof fn lemma_pick_nothing(
    held: Holders,
    b: BridgeModel,
    checked: Seq<PriorityId>,
    budget: u64,
    n: int,
)
    ensures
        pick_upto(held, b, checked, budget, n).picked.len() == 0 ==> pick_upto(
            held,
            b,
            checked,
            budget,
            n,
        ).held == held && pick_upto(held, b, checked, budget, n).budget == budget,
    decreases n,
{
    if n > 0 {
        lemma_pick_nothing(held, b, checked, budget, n - 1);
    }
}

/// Where the locks of one transaction are not granted, those before it are the
/// ones that were.
proof fn lemma_prefix(held: Holders, b: BridgeModel, keys: Seq<u64>, i: int, n: int)
    requires
        0 <= i < n,
        acquire_upto(held, b, keys, i) is Some,
        acquire_upto(held, b, keys, i + 1) is None,
    ensures
        granted_prefix(held, b, keys, n) == i,
        acquire_upto(held, b, keys, n) is None,
    decreases n,
{
    if n > i + 1 {
        lemma_prefix(held, b, keys, i, n - 1);
    } else {
        assert(granted_prefix(held, b, keys, i) == i);
    }
}

/// The score of a transaction, below the marker of bundles.
pub fn cap_score(score: u64) -> (r: u64)
    ensures
        r == capped_score(score),
{
    if score >= BUNDLE_MARKER {
        BUNDLE_MARKER - 1
    } else {
        score
    }
}

/// Priority and cost of a transaction with these costs that the auction gave a
/// score; none if it has no costs, or if its score is too low.
pub fn score_costs(costs: &Option<TxCosts>, score: u64, min_score: u64) -> (r: Option<(u64, u64)>)
    ensures
        r == scored(*costs, score, min_score),
{
    match costs {
        Some(costs) => {
            let capped: u64 = cap_score(score);
            if capped < min_score {
                None
            } else {
                Some((capped, costs.total_cost))
            }
        },
        None => None,
    }
}

/// Priority and cost of a transaction that the auction gave a score; none if
/// its costs cannot be told, or if its score is too low.
pub fn calculate_priority(runtime: &RuntimeState, packet: &[u8], score: u64, min_score: u64) -> (r:
    Option<(u64, u64)>)
    ensures
        r == (match costs_of(packet@, runtime@.features) {
            Some(costs) => if capped_score(score) < min_score {
                None
            } else {
                Some((capped_score(score), costs.total_cost))
            },
            None => None,
        }),
        r == auction_priority_of(runtime@, packet@, score, min_score),
{
    score_costs(&derive_costs(packet, &runtime.feature_set), score, min_score)
}

/// What the auction needs to know about the transaction in a packet; none if
/// its costs cannot be told, or its tips exceed 64 bits.
pub fn read_bid(runtime: &RuntimeState, packet: &[u8]) -> (r: Option<Bid>)
    ensures
        match r {
            Some(bid) => ({
                &&& costs_of(packet@, runtime@.features) == Some(bid.costs)
                &&& sanitized_transaction(packet@) matches Some(fields) && bid.tip == fields.tip()
                    && bid.locks@ == fields.unresolved_locks()
            }),
            None => costs_of(packet@, runtime@.features) is None || (match sanitized_transaction(
                packet@,
            ) {
                Some(fields) => fields.tip() > u64::MAX,
                None => true,
            }),
        },
{
    let costs = match derive_costs(packet, &runtime.feature_set) {
        Some(costs) => costs,
        None => {
            return None;
        },
    };
    let fields = match sanitize_packet(packet) {
        Some(fields) => fields,
        None => {
            return None;
        },
    };
    match try_extract_tip(&fields) {
        Some(tip) => {
            let packet: Vec<u8> = Vec::new();
            let state = TransactionState { packet, fields, simple_vote: false, resolved: None };
            assert(state@.packet =~= Seq::empty());
            Some(Bid { costs, locks: state.locks(), tip })
        },
        None => None,
    }
}

/// Cost and value of a transaction of a bundle.
pub fn value_bid(priority: Option<(u64, u64)>) -> (r: Option<(u64, u64)>)
    ensures
        r == bid_value(priority),
{
    match priority {
        Some((score, cost)) => Some((cost, score)),
        None => None,
    }
}

/// Costs and values of the transactions of a bundle.
pub fn value_bids(
    runtime: &RuntimeState,
    bundle: &Vec<Vec<u8>>,
    scores: &Vec<u64>,
    min_score: u64,
) -> (values: Vec<Option<(u64, u64)>>)
    requires
        bundle@.len() == scores@.len(),
    ensures
        values@ == bid_values(runtime@, packets(bundle@), scores@, min_score),
{
    let mut values: Vec<Option<(u64, u64)>> = Vec::new();
    let mut i: usize = 0;
    while i < bundle.len()
        invariant
            0 <= i <= bundle@.len(),
            bundle@.len() == scores@.len(),
            values@.len() == i,
            forall|j: int| 0 <= j < i ==> #[trigger] values@[j] == bid_value(
                auction_priority_of(runtime@, bundle@[j]@, scores@[j], min_score),
            ),
        decreases bundle@.len() - i,
    {
        let priority = calculate_priority(runtime, bundle[i].as_slice(), scores[i], min_score);
        values.push(value_bid(priority));
        i = i + 1;
    }
    assert(values@ =~= bid_values(runtime@, packets(bundle@), scores@, min_score));
    values
}

/// What is sent for the picked transactions.
fn build_picked_message(picked: &Vec<PriorityId>) -> (batch: Vec<KeyedTransactionMeta>)
    ensures
        batch@ == picked_message(picked@),
{
    let mut batch: Vec<KeyedTransactionMeta> = Vec::new();
    let mut i: usize = 0;
    while i < picked.len()
        invariant
            0 <= i <= picked@.len(),
            batch@ == picked_message(picked@).take(i as int),
        decreases picked@.len() - i,
    {
        batch.push(KeyedTransactionMeta { key: picked[i].key, meta: picked[i] });
        i = i + 1;
        assert(batch@ =~= picked_message(picked@).take(i as int));
    }
    assert(picked_message(picked@).take(picked@.len() as int) =~= picked_message(picked@));
    batch
}

/// A copy of a list of keys.
fn copy_keys(keys: &Vec<u64>) -> (r: Vec<u64>)
    ensures
        r@ == keys@,
{
    let mut r: Vec<u64> = Vec::new();
    let mut i: usize = 0;
    while i < keys.len()
        invariant
            0 <= i <= keys@.len(),
            r@ == keys@.take(i as int),
        decreases keys@.len() - i,
    {
        r.push(keys[i]);
        i = i + 1;
    }
    assert(keys@.take(keys@.len() as int) =~= keys@);
    r
}

} // verus!
