//! The parts shared by the schedulers: their queues, and the steps that do not
//! depend on how locks are kept.

use vstd::prelude::*;
use std::collections::hash_map::RandomState;
use std::collections::HashMap;
use indexmap::IndexSet;
use min_max_heap::MinMaxHeap;

use crate::accounts::TIP_PAYMENT_PROGRAM;
use crate::bridge::{
    Action, Bridge, KeyedTransactionMeta, ProgressMessage, ScheduleBatch, TxDecision, CHECK_FLAGS,
    CHECK_WORKER,
};
use crate::containers::{
    heap_items, heap_len, heap_new, heap_pop_max, heap_pop_min, heap_push, index_set_contains,
    index_set_drain, index_set_insert, index_set_items, index_set_len, index_set_new,
    lemma_greatest_unique, lemma_least_unique,
};
use crate::scheduler_model::{
    any_filtered, fresh_upto, last_idle, scan_upto, CheckStep, CoreArgs, CoreModel, RuntimeConfig,
    World, SLOTS_PER_EPOCH,
};
use crate::events::{
    Event, EventEmitter, EvictReason, SlotStatsEvent, TransactionAction, TransactionSource,
};
use crate::jito::{packets, BuilderConfig, TipConfig};
use crate::ordered::{lemma_with_item, rank, OrderedSet};
use crate::pubkey::Pubkey;
use crate::queues::{
    lemma_message_cost_monotone, lemma_total_cost_nonnegative, lemma_total_cost_remove,
    lemma_with_executing, message_cost, start_executing, total_cost,
};
use crate::shared::{BundleId, PriorityId, BUNDLE_MARKER};
use crate::tip_program::{
    change_tip_receiver, init_tip_distribution, ChangeTipReceiverArgs, Identity,
    TipDistributionArgs,
};
use crate::transaction::{any_listed, mentions_any, optional_seq};
use crate::worker::{
    is_retryable, CheckResponse, ExecutionResponse, WorkerAction, WorkerResponse, ACCOUNT_IN_USE,
    MAX_BLOCK_UNITS,
    NOT_INCLUDED_NONE,
};

verus! {

broadcast use vstd::std_specs::hash::group_hash_axioms;

/// What a scheduler holds, apart from its locks.
pub struct Core {
    pub identity: Identity,
    pub tip_distribution_config: TipDistributionArgs,
    pub filter_keys: OrderedSet<Pubkey>,
    pub unchecked_capacity: usize,
    pub checked_capacity: usize,
    pub bundle_capacity: usize,
    pub runtime: RuntimeConfig,
    pub tracks_queue: bool,
    pub builder_config: BuilderConfig,
    pub tip_config: Option<TipConfig>,
    pub recent_blockhash: [u8; 32],
    /// Bundles that wait to be executed.
    pub bundles: OrderedSet<BundleId>,
    /// Transactions that wait to be checked.
    pub unchecked_tx: MinMaxHeap<(u64, u64, u64)>,
    /// Transactions that wait to be executed.
    pub checked_tx: OrderedSet<PriorityId>,
    /// Transactions that execute, with their costs.
    pub executing_tx: HashMap<u64, u64>,
    /// Transactions that wait for the next slot.
    pub deferred_tx: IndexSet<(u64, u64, u64), RandomState>,
    /// Where the round of repeated checks has come to.
    pub next_recheck: Option<PriorityId>,
    /// Cost units of the transactions that execute.
    pub in_flight_cus: u64,
    pub last_progress_time: u64,
    pub events: Option<EventEmitter>,
    pub slot: u64,
    pub slot_stats: SlotStatsEvent,
}

impl View for Core {
    type V = CoreModel;

    open spec fn view(&self) -> CoreModel {
        CoreModel {
            identity: self.identity,
            tip_distribution_config: self.tip_distribution_config,
            filter_keys: self.filter_keys@,
            unchecked_capacity: self.unchecked_capacity,
            checked_capacity: self.checked_capacity,
            bundle_capacity: self.bundle_capacity,
            runtime: self.runtime,
            tracks_queue: self.tracks_queue,
            builder_config: self.builder_config,
            tip_config: self.tip_config,
            recent_blockhash: self.recent_blockhash,
            bundles: self.bundles@,
            unchecked: heap_items(self.unchecked_tx),
            checked: self.checked_tx@,
            executing: self.executing_tx@,
            deferred: index_set_items(self.deferred_tx),
            next_recheck: self.next_recheck,
            in_flight_cus: self.in_flight_cus,
            last_progress_time: self.last_progress_time,
            events: self.events,
            slot: self.slot,
            stats: self.slot_stats,
        }
    }
}

/// A scheduler, apart from its locks, and its side of the connection.
pub open spec fn world(core: &Core, bridge: &Bridge) -> World {
    World { s: core@, b: bridge@ }
}

impl Core {
    /// The queues are in order, and the cost units in flight are those of the
    /// transactions that execute; what a block can hold may be added to them.
    pub open spec fn wf(&self) -> bool {
        &&& self.filter_keys.wf()
        &&& self.bundles.wf()
        &&& self.checked_tx.wf()
        &&& self.executing_tx@.dom().finite()
        &&& self.in_flight_cus == total_cost(self.executing_tx@)
        &&& self.in_flight_cus <= u64::MAX - MAX_BLOCK_UNITS
    }

    /// A scheduler that has received nothing.
    pub fn new(
        args: CoreArgs,
        builder_config: BuilderConfig,
        events: Option<EventEmitter>,
        tracks_queue: bool,
        now: u64,
    ) -> (core: Self)
        ensures
            core.wf(),
            core@.started(args, builder_config, events, tracks_queue, now),
    {
        let mut filter_keys: OrderedSet<Pubkey> = OrderedSet::new();
        let tip_program = Pubkey { bytes: TIP_PAYMENT_PROGRAM };
        proof {
            lemma_with_item::<Pubkey>(filter_keys@, tip_program);
        }
        filter_keys.insert(tip_program);
        let mut i: usize = 0;
        while i < args.filter_keys.len()
            invariant
                0 <= i <= args.filter_keys@.len(),
                filter_keys.wf(),
                forall|key: Pubkey| #[trigger]
                    filter_keys@.contains(key) <==> (args.filter_keys@.take(i as int).contains(key)
                        || key == tip_program),
            decreases args.filter_keys@.len() - i,
        {
            let key = args.filter_keys[i];
            proof {
                lemma_with_item::<Pubkey>(filter_keys@, key);
            }
            filter_keys.insert(key);
            proof {
                let before = args.filter_keys@.take(i as int);
                let after = args.filter_keys@.take(i + 1);
                assert(after =~= before.push(key));
                assert forall|k: Pubkey| #[trigger] after.contains(k) <==> (before.contains(k) || k == key) by {
                    if before.contains(k) {
                        let j = before.index_of(k);
                        assert(after[j] == k);
                    }
                    if k == key {
                        assert(after[i as int] == k);
                    }
                }
            }
            i = i + 1;
        }
        proof {
            assert(args.filter_keys@.take(args.filter_keys@.len() as int) =~= args.filter_keys@);
        }
        let core = Core {
            identity: args.identity,
            tip_distribution_config: args.tip,
            filter_keys,
            unchecked_capacity: args.unchecked_capacity,
            checked_capacity: args.checked_capacity,
            bundle_capacity: args.bundle_capacity,
            runtime: args.runtime,
            tracks_queue,
            builder_config,
            tip_config: None,
            recent_blockhash: [0; 32],
            bundles: OrderedSet::new(),
            unchecked_tx: heap_new(),
            checked_tx: OrderedSet::new(),
            executing_tx: HashMap::new(),
            deferred_tx: index_set_new(),
            next_recheck: None,
            in_flight_cus: 0,
            last_progress_time: now,
            events,
            slot: 0,
            slot_stats: SlotStatsEvent::default(),
        };
        assert(core.executing_tx@ =~= Map::empty());
        core
    }

    /// Changes the values that can be changed while a scheduler runs.
    pub fn set_runtime_config(
        &mut self,
        unchecked_capacity: usize,
        checked_capacity: usize,
        bundle_capacity: usize,
        runtime: RuntimeConfig,
    )
        requires
            old(self).wf(),
        ensures
            final(self).wf(),
            final(self)@ == (CoreModel {
                unchecked_capacity,
                checked_capacity,
                bundle_capacity,
                runtime,
                ..old(self)@
            }),
    {
        self.unchecked_capacity = unchecked_capacity;
        self.checked_capacity = checked_capacity;
        self.bundle_capacity = bundle_capacity;
        self.runtime = runtime;
    }

    /// Reports an event about a transaction.
    pub fn emit_tx_event(&self, bridge: &mut Bridge, key: u64, priority: u64, action: TransactionAction)
        ensures
            world(self, final(bridge)) == world(self, old(bridge)).report_tx(key, priority, action),
    {
        bridge.report_tx(&self.events, self.slot, key, priority, action);
    }

    /// Tells that a transaction waits for its locks.
    pub fn queue_transaction(&self, bridge: &mut Bridge, key: u64)
        ensures
            world(self, final(bridge)) == world(self, old(bridge)).queue(key),
    {
        if self.tracks_queue {
            let locks = bridge.locks(key);
            bridge.push_action(Action::Queue { locks });
        }
    }

    /// Tells that a transaction no longer waits for its locks.
    pub fn dequeue_transaction(&self, bridge: &mut Bridge, key: u64)
        ensures
            world(self, final(bridge)) == world(self, old(bridge)).dequeue(key),
    {
        if self.tracks_queue {
            let locks = bridge.locks(key);
            bridge.push_action(Action::Dequeue { locks });
        }
    }

    /// Transactions that passed their check and are not done.
    pub fn pending_len(&self) -> (n: u128)
        ensures
            n == self@.pending(),
    {
        self.checked_tx.len() as u128 + self.executing_tx.len() as u128 + index_set_len(
            &self.deferred_tx,
        ) as u128
    }

    /// Evicts the transaction of lowest priority that waits to be checked.
    pub fn evict_unchecked(&mut self, bridge: &mut Bridge)
        requires
            old(self).wf(),
        ensures
            final(self).wf(),
            world(final(self), final(bridge)) == world(old(self), old(bridge)).evict_unchecked(),
    {
        match heap_pop_min(&mut self.unchecked_tx) {
            Some(id) => {
                proof {
                    lemma_least_unique(old(self)@.unchecked, id);
                    assert(old(self)@.unchecked.len() > 0) by {
                        assert(old(self)@.unchecked.count(id) > 0);
                    }
                }
                self.emit_tx_event(
                    bridge,
                    id.2,
                    id.0,
                    TransactionAction::Evict { reason: EvictReason::UncheckedCapacity },
                );
                bridge.drop_transaction(id.2);
            },
            None => {},
        }
    }

    /// A transaction waits to be checked.
    pub fn push_unchecked(&mut self, id: PriorityId)
        requires
            old(self).wf(),
        ensures
            final(self).wf(),
            final(self)@ == (CoreModel {
                unchecked: old(self)@.unchecked.insert(id.triple()),
                ..old(self)@
            }),
    {
        heap_push(&mut self.unchecked_tx, id.to_triple());
    }

    /// A transaction waits to be executed.
    pub fn insert_checked(&mut self, bridge: &mut Bridge, id: PriorityId)
        requires
            old(self).wf(),
        ensures
            final(self).wf(),
            world(final(self), final(bridge)) == world(old(self), old(bridge)).insert_checked(id),
    {
        self.queue_transaction(bridge, id.key);
        self.checked_tx.insert(id);
    }

    /// A transaction no longer waits to be executed; tells whether it did.
    pub fn remove_checked(&mut self, bridge: &mut Bridge, id: &PriorityId) -> (removed: bool)
        requires
            old(self).wf(),
        ensures
            final(self).wf(),
            world(final(self), final(bridge)) == world(old(self), old(bridge)).remove_checked(*id),
            removed == old(self)@.checked.contains(*id),
    {
        if self.checked_tx.remove(id) {
            self.dequeue_transaction(bridge, id.key);
            true
        } else {
            false
        }
    }

    /// The transaction of lowest priority no longer waits to be executed.
    pub fn pop_first_checked(&mut self, bridge: &mut Bridge) -> (r: Option<PriorityId>)
        requires
            old(self).wf(),
        ensures
            final(self).wf(),
            world(final(self), final(bridge)) == world(old(self), old(bridge)).pop_first_checked(),
            r == (if old(self)@.checked.len() == 0 {
                None
            } else {
                Some(old(self)@.checked.first())
            }),
    {
        match self.checked_tx.pop_first() {
            Some(id) => {
                self.dequeue_transaction(bridge, id.key);
                Some(id)
            },
            None => None,
        }
    }

    /// Evicts the transaction of lowest priority that waits to be executed;
    /// tells whether there was one.
    pub fn evict_checked(&mut self, bridge: &mut Bridge) -> (evicted: bool)
        requires
            old(self).wf(),
        ensures
            final(self).wf(),
            world(final(self), final(bridge)) == world(old(self), old(bridge)).evict_checked(),
            evicted == (old(self)@.checked.len() > 0),
    {
        match self.pop_first_checked(bridge) {
            Some(id) => {
                self.emit_tx_event(
                    bridge,
                    id.key,
                    id.priority,
                    TransactionAction::Evict { reason: EvictReason::CheckedCapacity },
                );
                bridge.drop_transaction(id.key);
                true
            },
            None => false,
        }
    }

    /// The deferred transactions wait to be executed again.
    fn restore_deferred(&mut self, bridge: &mut Bridge)
        requires
            old(self).wf(),
        ensures
            final(self).wf(),
            world(final(self), final(bridge)) == (World {
                s: CoreModel { deferred: Seq::empty(), ..old(self)@ },
                b: old(bridge)@,
            }).restore_upto(old(self)@.deferred, old(self)@.deferred.len() as int),
    {
        let deferred = index_set_drain(&mut self.deferred_tx);
        let ghost start = world(self, bridge);
        let mut i: usize = 0;
        while i < deferred.len()
            invariant
                0 <= i <= deferred.len(),
                self.wf(),
                world(self, bridge) == start.restore_upto(deferred@, i as int),
            decreases deferred.len() - i,
        {
            self.insert_checked(bridge, PriorityId::from_triple(deferred[i]));
            i = i + 1;
        }
    }

    /// Starts a round of checks of what waits to be executed, unless one is
    /// under way.
    pub fn start_recheck(&mut self)
        requires
            old(self).wf(),
        ensures
            final(self).wf(),
            final(self)@ == old(self)@.recheck_started(),
    {
        match self.next_recheck {
            Some(_) => {},
            None => {
                self.next_recheck = match self.checked_tx.last() {
                    Some(id) => Some(*id),
                    None => None,
                };
            },
        }
    }

    /// Notes where the validator stands.
    pub fn note_progress(&mut self, bridge: &mut Bridge, update: Option<ProgressMessage>, now: u64)
        requires
            old(self).wf(),
        ensures
            final(self).wf(),
            world(final(self), final(bridge)) == world(old(self), old(bridge)).note_progress(
                update,
                now,
            ),
    {
        match update {
            Some(progress) => {
                bridge.progress = progress;
                self.last_progress_time = now;
            },
            None => {},
        }
    }

    /// Reports the end of the last slot and the start of the new one.
    fn report_roll(&mut self, bridge: &mut Bridge)
        requires
            old(self).wf(),
        ensures
            final(self).wf(),
            world(final(self), final(bridge)) == world(old(self), old(bridge)).report_roll(),
    {
        match self.events {
            Some(emitter) => {
                if self.slot != 0 {
                    bridge.report(&self.events, Event::SlotStats(self.slot_stats));
                    self.slot_stats = SlotStatsEvent::default();
                }
                let mut moved = emitter;
                moved.ctx.set(bridge.progress.current_slot);
                self.events = Some(moved);
                bridge.report(&self.events, Event::SlotStart);
            },
            None => {},
        }
    }

    /// Moves on to the validator's slot, if it is another one.
    pub fn roll_slot(&mut self, bridge: &mut Bridge)
        requires
            old(self).wf(),
        ensures
            final(self).wf(),
            world(final(self), final(bridge)) == world(old(self), old(bridge)).roll_slot(),
    {
        if bridge.progress.current_slot != self.slot {
            self.report_roll(bridge);
            self.slot = bridge.progress.current_slot;
            self.slot_stats.was_leader_ready = false;
            self.restore_deferred(bridge);
            self.start_recheck();
        }
    }

    /// Reports that the validator became leader.
    pub fn report_leader(&mut self, bridge: &mut Bridge)
        requires
            old(self).wf(),
        ensures
            final(self).wf(),
            world(final(self), final(bridge)) == world(old(self), old(bridge)).report_leader(),
    {
        bridge.report(&self.events, Event::LeaderReady);
        self.slot_stats.was_leader_ready = true;
    }

    /// The packets that make this validator the receiver of tips: the one that
    /// sets up its distribution account, and the one that changes the receiver.
    ///
    /// Returns `None` while the present receiver is not known, or if the
    /// transactions cannot be made.
    pub fn tip_transactions(&self) -> (r: Option<(Vec<u8>, Vec<u8>)>)
        ensures
            match r {
                Some((init, change)) => self@.tip_packets() == Some((init@, change@)),
                None => self@.tip_packets() is None,
            },
    {
        let tip_config = match self.tip_config {
            Some(tip_config) => tip_config,
            None => {
                return None;
            },
        };
        let (account, init) = match init_tip_distribution(
            &self.identity,
            &self.tip_distribution_config,
            self.slot / SLOTS_PER_EPOCH,
            &self.recent_blockhash,
        ) {
            Some(setup) => setup,
            None => {
                return None;
            },
        };
        match change_tip_receiver(
            &self.identity,
            &ChangeTipReceiverArgs {
                old_tip_receiver: tip_config.tip_receiver,
                new_tip_receiver: account,
                old_block_builder: tip_config.block_builder,
                new_block_builder: self.builder_config.key,
                block_builder_commission: self.builder_config.commission,
            },
            &self.recent_blockhash,
        ) {
            Some(change) => Some((init, change)),
            None => None,
        }
    }

    /// A transaction is no longer executing; tells whether it was.
    pub fn stop_executing(&mut self, key: u64) -> (stopped: bool)
        requires
            old(self).wf(),
        ensures
            final(self).wf(),
            stopped == old(self)@.executing.contains_key(key),
            final(self)@ == old(self)@.execution_stopped(key),
    {
        match self.executing_tx.remove(&key) {
            Some(cost) => {
                proof {
                    let before = old(self)@.executing;
                    lemma_total_cost_remove(before, key);
                    lemma_total_cost_nonnegative(before.remove(key));
                    assert(self.executing_tx@ =~= before.remove(key));
                }
                self.in_flight_cus = self.in_flight_cus - cost;
                true
            },
            None => {
                assert(self.executing_tx@ =~= old(self).executing_tx@);
                false
            },
        }
    }

    /// Whether with a worker's answer a transaction that executes is done.
    pub fn ends_execution(&self, bridge: &Bridge, response: &WorkerResponse) -> (r: bool)
        ensures
            r == world(self, bridge).ends_execution(response@.0, response@.1),
    {
        match response.response {
            WorkerAction::Check(_, _) => false,
            _ => bridge.transactions.contains_key(&response.meta.key)
                && self.executing_tx.contains_key(&response.meta.key),
        }
    }

    /// Whether a worker's answer makes sense, apart from the locks.
    pub fn accepts_answer(&self, bridge: &Bridge, response: &WorkerResponse) -> (r: bool)
        ensures
            r == world(self, bridge).accepts_answer(response@.0, response@.1),
    {
        let meta = &response.meta;
        match &response.response {
            WorkerAction::Check(rep, _) => rep.is_consistent() || !bridge.transactions.contains_key(
                &meta.key,
            ) || self.executing_tx.contains_key(&meta.key) || index_set_contains(
                &self.deferred_tx,
                &meta.to_triple(),
            ),
            _ => {
                if !bridge.transactions.contains_key(&meta.key) {
                    return true;
                }
                match self.executing_tx.get(&meta.key) {
                    Some(cost) => *cost == meta.cost,
                    None => true,
                }
            },
        }
    }

    /// A transaction came back unprocessed.
    pub fn on_unprocessed(&mut self, bridge: &mut Bridge, meta: PriorityId) -> (r: TxDecision)
        requires
            old(self).wf(),
            old(self)@.executing.contains_key(meta.key) ==> old(self)@.executing[meta.key]
                == meta.cost,
        ensures
            final(self).wf(),
            (world(final(self), final(bridge)), r) == world(old(self), old(bridge)).unprocessed(meta),
    {
        if !self.stop_executing(meta.key) {
            return TxDecision::Keep;
        }
        if meta.priority == BUNDLE_MARKER {
            return TxDecision::Drop;
        }
        self.emit_tx_event(bridge, meta.key, meta.priority, TransactionAction::ExecuteUnprocessed);
        self.slot_stats.execute_unprocessed = self.slot_stats.execute_unprocessed.wrapping_add(1);
        self.insert_checked(bridge, meta);
        TxDecision::Keep
    }

    /// Reports how an execution ended, and counts it.
    fn report_execution(&mut self, bridge: &mut Bridge, meta: PriorityId, reason: u8)
        requires
            old(self).wf(),
        ensures
            final(self).wf(),
            world(final(self), final(bridge)) == world(old(self), old(bridge)).report_execution(
                meta,
                reason,
            ),
    {
        if reason == NOT_INCLUDED_NONE {
            self.slot_stats.execute_ok = self.slot_stats.execute_ok.wrapping_add(1);
            self.emit_tx_event(bridge, meta.key, meta.priority, TransactionAction::ExecuteOk);
        } else {
            self.slot_stats.execute_err = self.slot_stats.execute_err.wrapping_add(1);
            self.emit_tx_event(
                bridge,
                meta.key,
                meta.priority,
                TransactionAction::ExecuteErr { reason: reason as u32 },
            );
        }
    }

    /// A transaction was executed, or could not be.
    pub fn on_executed(&mut self, bridge: &mut Bridge, meta: PriorityId, rep: ExecutionResponse) -> (r:
        TxDecision)
        requires
            old(self).wf(),
            old(self)@.executing.contains_key(meta.key) ==> old(self)@.executing[meta.key]
                == meta.cost,
        ensures
            final(self).wf(),
            (world(final(self), final(bridge)), r) == world(old(self), old(bridge)).executed(
                meta,
                rep,
            ),
    {
        self.stop_executing(meta.key);
        self.report_execution(bridge, meta, rep.not_included_reason);
        // A bundle is never tried again, nor is what cannot succeed later.
        if meta.priority == BUNDLE_MARKER || !is_retryable(rep.not_included_reason) {
            return TxDecision::Drop;
        }
        // What was tried in this slot waits for the next one, unless it only met
        // a lock.
        if rep.execution_slot == self.slot && rep.not_included_reason != ACCOUNT_IN_USE {
            index_set_insert(&mut self.deferred_tx, meta.to_triple());
        } else {
            self.insert_checked(bridge, meta);
        }
        if self.pending_len() > self.checked_capacity as u128 {
            self.evict_checked(bridge);
        }
        TxDecision::Keep
    }

    /// A transaction was checked: what that says, before its place is decided.
    pub fn begin_check(
        &mut self,
        bridge: &mut Bridge,
        meta: PriorityId,
        rep: &CheckResponse,
        resolved_keys: &Option<Vec<Pubkey>>,
    ) -> (r: CheckStep)
        requires
            old(self).wf(),
        ensures
            final(self).wf(),
            (world(final(self), final(bridge)), r) == world(old(self), old(bridge)).check_step(
                meta,
                *rep,
                optional_seq(*resolved_keys),
            ),
    {
        if self.executing_tx.contains_key(&meta.key) || index_set_contains(
            &self.deferred_tx,
            &meta.to_triple(),
        ) {
            return CheckStep::Done(TxDecision::Keep);
        }
        match rep.failed_check() {
            Some(reason) => {
                self.emit_tx_event(
                    bridge,
                    meta.key,
                    meta.priority,
                    TransactionAction::CheckErr { reason },
                );
                self.slot_stats.check_err = self.slot_stats.check_err.wrapping_add(1);
                self.remove_checked(bridge, &meta);
                return CheckStep::Done(TxDecision::Drop);
            },
            None => {},
        }
        if self.checked_tx.contains(&meta) {
            self.slot_stats.check_ok = self.slot_stats.check_ok.wrapping_add(1);
            return CheckStep::Done(TxDecision::Keep);
        }
        match resolved_keys {
            Some(keys) => {
                if mentions_any(keys, &self.filter_keys) {
                    self.slot_stats.check_filtered = self.slot_stats.check_filtered.wrapping_add(1);
                    return CheckStep::Done(TxDecision::Drop);
                }
            },
            None => {},
        }
        CheckStep::Admit
    }

    /// The next transaction of the round of repeated checks.
    fn next_recheck(&mut self) -> (r: Option<PriorityId>)
        requires
            old(self).wf(),
            old(self)@.unchecked.len() == 0,
        ensures
            final(self).wf(),
            (final(self)@, r) == old(self)@.next_check(),
    {
        let from = match self.next_recheck {
            Some(from) => from,
            None => {
                return None;
            },
        };
        if self.checked_tx.contains(&from) && !self.executing_tx.contains_key(&from.key) {
            self.next_recheck = match self.checked_tx.before(&from) {
                Some(id) => Some(*id),
                None => None,
            };
            return Some(from);
        }
        let mut p: usize = self.checked_tx.rank_of(&from);
        while p > 0
            invariant
                p <= self.checked_tx@.len(),
                *self == *old(self),
                self.wf(),
                self@.unchecked.len() == 0,
                self@.next_recheck == Some(from),
                !self@.checked.contains(from) || self@.executing.contains_key(from.key),
                last_idle(self@.checked, self@.executing, rank::<PriorityId>(self@.checked, from) as int)
                    == last_idle(self@.checked, self@.executing, p as int),
            decreases p,
        {
            let id = *self.checked_tx.at(p - 1);
            if !self.executing_tx.contains_key(&id.key) {
                self.next_recheck = if p - 1 == 0 {
                    None
                } else {
                    Some(*self.checked_tx.at(p - 2))
                };
                return Some(id);
            }
            p = p - 1;
        }
        self.next_recheck = None;
        None
    }

    /// The next transaction to check: of those never checked the one of highest
    /// priority, or else the next one of the round of repeated checks.
    pub fn pop_next_check(&mut self) -> (r: Option<PriorityId>)
        requires
            old(self).wf(),
        ensures
            final(self).wf(),
            (final(self)@, r) == old(self)@.next_check(),
            final(self)@.unchecked.len() <= old(self)@.unchecked.len(),
    {
        match heap_pop_max(&mut self.unchecked_tx) {
            Some(id) => {
                proof {
                    lemma_greatest_unique(old(self)@.unchecked, id);
                    assert(old(self)@.unchecked.count(id) > 0);
                }
                Some(PriorityId::from_triple(id))
            },
            None => self.next_recheck(),
        }
    }

    /// Fills a message with at most 64 transactions to check.
    fn fill_checks(&mut self) -> (batch: Vec<KeyedTransactionMeta>)
        requires
            old(self).wf(),
        ensures
            final(self).wf(),
            (final(self)@, batch@) == old(self)@.fill_checks(Seq::empty(), 64),
            final(self)@.unchecked.len() <= old(self)@.unchecked.len(),
    {
        let mut batch: Vec<KeyedTransactionMeta> = Vec::new();
        assert(batch@ =~= Seq::empty());
        while batch.len() < 64
            invariant
                batch@.len() <= 64,
                self.wf(),
                self@.unchecked.len() <= old(self)@.unchecked.len(),
                self@.fill_checks(batch@, (64 - batch@.len()) as nat) == old(self)@.fill_checks(
                    Seq::empty(),
                    64,
                ),
            decreases 64 - batch@.len(),
        {
            match self.pop_next_check() {
                Some(id) => {
                    batch.push(KeyedTransactionMeta { key: id.key, meta: id });
                },
                None => {
                    return batch;
                },
            }
        }
        batch
    }

    /// Sends what there is to check, as long as the check worker's queue is
    /// short, and counts the first checks.
    pub fn schedule_checks(&mut self, bridge: &mut Bridge)
        requires
            old(self).wf(),
        ensures
            final(self).wf(),
            world(final(self), final(bridge)) == world(old(self), old(bridge)).schedule_checks(),
    {
        let start_len: usize = heap_len(&self.unchecked_tx);
        let ghost start = world(self, bridge);
        let ghost goal = start.send_checks(start.check_room());
        let mut open: bool = bridge.workers.len() > 0;
        while open
            invariant
                self.wf(),
                open ==> bridge.workers@.len() > 0,
                open ==> world(self, bridge).send_checks(world(self, bridge).check_room()) == goal,
                !open ==> world(self, bridge) == goal,
                self@.unchecked.len() <= start_len,
            decreases world(self, bridge).check_room(), open as int,
        {
            let queue = bridge.workers[CHECK_WORKER];
            if queue.rem() == 0 || queue.len >= self.runtime.max_check_batches {
                open = false;
            } else {
                let batch = self.fill_checks();
                if batch.len() == 0 {
                    open = false;
                } else {
                    bridge.schedule(
                        ScheduleBatch {
                            worker: CHECK_WORKER,
                            transactions: batch,
                            max_working_slot: u64::MAX,
                            flags: CHECK_FLAGS,
                        },
                    );
                }
            }
        }
        let end_len: usize = heap_len(&self.unchecked_tx);
        let requested: u64 = (start_len - end_len) as u64;
        self.slot_stats.check_requested = self.slot_stats.check_requested.wrapping_add(requested);
    }

    /// The transactions of a message execute; counts them.
    pub fn start_batch(&mut self, bridge: &mut Bridge, batch: &Vec<KeyedTransactionMeta>)
        requires
            old(self).wf(),
            old(self)@.in_flight_cus + message_cost(batch@, batch@.len() as int) <= u64::MAX
                - MAX_BLOCK_UNITS,
        ensures
            final(self).wf(),
            world(final(self), final(bridge)) == world(old(self), old(bridge)).start_batch(batch@),
            final(self)@.in_flight_cus == old(self)@.in_flight_cus + message_cost(
                batch@,
                batch@.len() as int,
            ),
    {
        let ghost start = world(self, bridge);
        let mut i: usize = 0;
        while i < batch.len()
            invariant
                0 <= i <= batch.len(),
                self.wf(),
                world(self, bridge) == start.mark_executing_upto(batch@, i as int),
                self@.in_flight_cus == start.s.in_flight_cus + message_cost(batch@, i as int),
                start.s.in_flight_cus + message_cost(batch@, batch@.len() as int) <= u64::MAX
                    - MAX_BLOCK_UNITS,
            decreases batch.len() - i,
        {
            let tx = batch[i];
            proof {
                lemma_message_cost_monotone(batch@, i + 1, batch@.len() as int);
                lemma_with_executing(self.executing_tx@, tx.key, tx.meta.cost);
            }
            start_executing(&mut self.executing_tx, tx.key, tx.meta.cost);
            self.in_flight_cus = self.in_flight_cus + tx.meta.cost;
            self.emit_tx_event(bridge, tx.key, tx.meta.priority, TransactionAction::ExecuteReq);
            i = i + 1;
        }
        self.slot_stats.execute_requested = self.slot_stats.execute_requested.wrapping_add(
            batch.len() as u64,
        );
    }

    /// Lets go of the waiting transactions of a bundle.
    fn discard(&self, bridge: &mut Bridge, keys: &Vec<u64>)
        ensures
            world(self, final(bridge)) == world(self, old(bridge)).discard(keys@),
    {
        let ghost start = world(self, bridge);
        let mut i: usize = 0;
        while i < keys.len()
            invariant
                0 <= i <= keys.len(),
                world(self, bridge) == start.discard_upto(keys@, i as int),
            decreases keys.len() - i,
        {
            self.dequeue_transaction(bridge, keys[i]);
            bridge.drop_transaction(keys[i]);
            i = i + 1;
        }
    }

    /// Lets go of the bundles that are too old.
    pub fn drop_expired_bundles(&mut self, bridge: &mut Bridge, now: u64)
        requires
            old(self).wf(),
        ensures
            final(self).wf(),
            world(final(self), final(bridge)) == world(old(self), old(bridge)).drop_expired_bundles(
                now,
            ),
    {
        let ghost all = self@.bundles;
        let ghost start = world(self, bridge);
        let ghost expiry = self.runtime.bundle_expiry;
        let ghost mut done: int = 0;
        let mut i: usize = 0;
        assert(self@.bundles =~= fresh_upto(all, now, expiry, 0) + all.skip(0));
        while i < self.bundles.len()
            invariant
                self.wf(),
                0 <= done <= all.len(),
                expiry == self.runtime.bundle_expiry,
                expiry == start.s.runtime.bundle_expiry,
                i == fresh_upto(all, now, expiry, done).len(),
                self@.bundles == fresh_upto(all, now, expiry, done) + all.skip(done),
                self@ == (CoreModel { bundles: self@.bundles, ..start.s }),
                bridge@ == start.discard_expired_upto(all, now, done).b,
                start.discard_expired_upto(all, now, done).s == start.s,
            decreases all.len() - done,
        {
            let ghost fresh = fresh_upto(all, now, expiry, done);
            assert(self@.bundles[i as int] == all[done]);
            let received_at: u64 = self.bundles.at(i).received_at;
            if now > received_at && now - received_at > self.runtime.bundle_expiry {
                let bundle = self.bundles.remove_at(i);
                let ghost before = bridge@;
                self.discard(bridge, &bundle.keys);
                proof {
                    assert(self@.bundles =~= fresh + all.skip(done + 1));
                    lemma_discard_frame(
                        World { s: self@, b: before },
                        World { s: start.s, b: before },
                        bundle.keys@,
                        bundle.keys@.len() as int,
                    );
                }
            } else {
                i = i + 1;
                assert(self@.bundles =~= fresh.push(all[done]) + all.skip(done + 1));
            }
            proof {
                done = done + 1;
            }
        }
        proof {
            assert(done == all.len()) by {
                assert(self@.bundles.len() == fresh_upto(all, now, expiry, done).len() + all.len() - done);
            }
            assert(self@.bundles =~= fresh_upto(all, now, expiry, all.len() as int));
            let dropped = World {
                s: CoreModel { bundles: fresh_upto(all, now, expiry, all.len() as int), ..start.s },
                ..start
            };
            lemma_expired_frame(dropped, start, all, now, all.len() as int);
        }
    }

    /// Whether one of the transactions names a filtered account.
    fn any_filtered(&self, bridge: &Bridge, keys: &Vec<u64>) -> (r: bool)
        requires
            self.wf(),
        ensures
            r == any_filtered(bridge@, keys@, self@.filter_keys),
    {
        let mut i: usize = 0;
        while i < keys.len()
            invariant
                0 <= i <= keys.len(),
                self.wf(),
                forall|j: int| 0 <= j < i ==> !(bridge@.transactions.contains_key(#[trigger] keys@[j])
                    && any_listed(
                    bridge@.transactions[keys@[j]].fields.account_keys,
                    self@.filter_keys,
                )),
            decreases keys.len() - i,
        {
            let key: u64 = keys[i];
            assert(keys@[i as int] == key);
            if self.should_filter_static(bridge, key) {
                return true;
            }
            i = i + 1;
        }
        false
    }

    /// Whether a transaction names a filtered account.
    pub fn should_filter_static(&self, bridge: &Bridge, key: u64) -> (r: bool)
        requires
            self.wf(),
        ensures
            r == world(self, bridge).filtered(key),
    {
        match bridge.transactions.get(&key) {
            Some(state) => mentions_any(&state.fields.account_keys, &self.filter_keys),
            None => false,
        }
    }

    /// Takes in the transactions of a bundle, whose costs and values are given;
    /// `None` if the bundle is refused.
    pub fn scan_bundle(
        &mut self,
        bridge: &mut Bridge,
        bundle: &Vec<Vec<u8>>,
        values: &Vec<Option<(u64, u64)>>,
    ) -> (r: Option<(Vec<u64>, u64, u64)>)
        requires
            old(self).wf(),
            bundle@.len() == values@.len(),
        ensures
            final(self).wf(),
            world(final(self), final(bridge)) == world(old(self), old(bridge)).scan_bundle(
                packets(bundle@),
                values@,
            ).0,
            match r {
                Some((keys, cost, value)) => world(old(self), old(bridge)).scan_bundle(
                    packets(bundle@),
                    values@,
                ).1 == Some((keys@, cost, value)),
                None => world(old(self), old(bridge)).scan_bundle(packets(bundle@), values@).1 is None,
            },
    {
        let ghost start = bridge@;
        let ghost all = packets(bundle@);
        let ghost n = bundle@.len() as int;
        let mut keys: Vec<u64> = Vec::new();
        let mut cost: u64 = 0;
        let mut value: u64 = 0;
        let mut i: usize = 0;
        assert(keys@ =~= Seq::empty());
        while i < bundle.len()
            invariant
                0 <= i <= bundle.len(),
                self.wf(),
                *self == *old(self),
                start == old(bridge)@,
                n == bundle@.len(),
                bundle@.len() == values@.len(),
                all == packets(bundle@),
                scan_upto(start, all, values@, i as int).b == bridge@,
                scan_upto(start, all, values@, i as int).keys == keys@,
                scan_upto(start, all, values@, i as int).totals == Some((cost, value)),
            decreases bundle.len() - i,
        {
            let ghost scan = scan_upto(start, all, values@, i as int);
            assert(all[i as int] == bundle@[i as int]@);
            match bridge.insert_transaction(bundle[i].as_slice()) {
                Some(key) => {
                    keys.push(key);
                },
                None => {
                    proof {
                        lemma_scan_stops(start, all, values@, i + 1, n);
                    }
                    bridge.drop_transactions(&keys);
                    return None;
                },
            }
            let totals = match values[i] {
                Some((c, v)) => match (cost.checked_add(c), value.checked_add(v)) {
                    (Some(c), Some(v)) => Some((c, v)),
                    _ => None,
                },
                None => None,
            };
            i = i + 1;
            match totals {
                Some((c, v)) => {
                    cost = c;
                    value = v;
                },
                None => {
                    proof {
                        assert(scan_upto(start, all, values@, i as int).totals is None);
                        lemma_scan_stops(start, all, values@, i as int, n);
                    }
                    bridge.drop_transactions(&keys);
                    return None;
                },
            }
        }
        if bundle.len() == 0 || self.any_filtered(bridge, &keys) {
            bridge.drop_transactions(&keys);
            return None;
        }
        Some((keys, cost, value))
    }

    /// A bundle waits to be executed.
    pub fn store_bundle(&mut self, bridge: &mut Bridge, bundle: BundleId)
        requires
            old(self).wf(),
        ensures
            final(self).wf(),
            world(final(self), final(bridge)) == world(old(self), old(bridge)).store_bundle(bundle@),
    {
        let ghost start = world(self, bridge);
        let ghost n = bundle.keys@.len() as int;
        let name = if bundle.keys.len() > 0 {
            match bridge.transactions.get(&bundle.keys[0]) {
                Some(state) => Some(state.fields.signature),
                None => None,
            }
        } else {
            None
        };
        let action = TransactionAction::Ingest { source: TransactionSource::Jito, bundle: name };
        let mut i: usize = 0;
        while i < bundle.keys.len()
            invariant
                0 <= i <= bundle.keys.len(),
                self.wf(),
                world(self, bridge) == start.report_bundle_upto(
                    bundle.keys@,
                    bundle.priority,
                    action,
                    i as int,
                ),
            decreases bundle.keys.len() - i,
        {
            self.emit_tx_event(bridge, bundle.keys[i], bundle.priority, action);
            i = i + 1;
        }
        if self.bundles.len() == self.bundle_capacity {
            match self.bundles.pop_first() {
                Some(evicted) => {
                    self.discard(bridge, &evicted.keys);
                },
                None => {},
            }
        }
        let ghost middle = world(self, bridge);
        let mut j: usize = 0;
        while j < bundle.keys.len()
            invariant
                0 <= j <= bundle.keys.len(),
                self.wf(),
                world(self, bridge) == middle.queue_upto(bundle.keys@, j as int),
            decreases bundle.keys.len() - j,
        {
            self.queue_transaction(bridge, bundle.keys[j]);
            j = j + 1;
        }
        self.bundles.insert(bundle);
    }

    /// Makes room for transactions that are about to arrive.
    pub fn make_room(&mut self, bridge: &mut Bridge, additional: usize)
        requires
            old(self).wf(),
        ensures
            final(self).wf(),
            world(final(self), final(bridge)) == world(old(self), old(bridge)).make_room(
                additional as nat,
            ),
    {
        let ghost start = world(self, bridge);
        let wanted: u128 = heap_len(&self.unchecked_tx) as u128 + additional as u128;
        let shortfall: u128 = wanted.saturating_sub(self.unchecked_capacity as u128);
        let mut i: u128 = 0;
        while i < shortfall
            invariant
                0 <= i <= shortfall,
                self.wf(),
                world(self, bridge) == start.evict_unchecked_upto(i as int),
            decreases shortfall - i,
        {
            if heap_len(&self.unchecked_tx) == 0 {
                proof {
                    lemma_evict_nothing(start, i as int, shortfall as int);
                }
                i = shortfall;
            } else {
                self.evict_unchecked(bridge);
                i = i + 1;
            }
        }
        self.slot_stats.ingest_tpu_evict = self.slot_stats.ingest_tpu_evict.wrapping_add(
            shortfall as u64,
        );
    }

    /// Counts a transaction of the validator that could not be scored.
    pub fn count_tpu_err(&mut self)
        requires
            old(self).wf(),
        ensures
            final(self).wf(),
            final(self)@ == (CoreModel {
                stats: SlotStatsEvent {
                    ingest_tpu_err: old(self)@.stats.ingest_tpu_err.wrapping_add(1),
                    ..old(self)@.stats
                },
                ..old(self)@
            }),
    {
        self.slot_stats.ingest_tpu_err = self.slot_stats.ingest_tpu_err.wrapping_add(1);
    }

    /// Counts a transaction of the validator that names a filtered account.
    pub fn count_tpu_filtered(&mut self)
        requires
            old(self).wf(),
        ensures
            final(self).wf(),
            final(self)@ == (CoreModel {
                stats: SlotStatsEvent {
                    ingest_tpu_filtered: old(self)@.stats.ingest_tpu_filtered.wrapping_add(1),
                    ..old(self)@.stats
                },
                ..old(self)@
            }),
    {
        self.slot_stats.ingest_tpu_filtered = self.slot_stats.ingest_tpu_filtered.wrapping_add(1);
    }

    /// Reports and counts a transaction of the validator that was taken in.
    pub fn report_tpu(&mut self, bridge: &mut Bridge, id: PriorityId)
        requires
            old(self).wf(),
        ensures
            final(self).wf(),
            world(final(self), final(bridge)) == world(old(self), old(bridge)).report_tpu(id),
    {
        self.emit_tx_event(
            bridge,
            id.key,
            id.priority,
            TransactionAction::Ingest { source: TransactionSource::Tpu, bundle: None },
        );
        self.slot_stats.ingest_tpu_ok = self.slot_stats.ingest_tpu_ok.wrapping_add(1);
    }

    /// Counts a packet of the block engine that could not be scored, and lets
    /// go of it.
    pub fn refuse_packet(&mut self, bridge: &mut Bridge, key: u64)
        requires
            old(self).wf(),
        ensures
            final(self).wf(),
            world(final(self), final(bridge)) == world(old(self), old(bridge)).refuse_packet(key),
    {
        self.slot_stats.ingest_custom_err = self.slot_stats.ingest_custom_err.wrapping_add(1);
        bridge.drop_transaction(key);
    }

    /// Counts a packet of the block engine that names a filtered account, and
    /// lets go of it.
    pub fn filter_packet(&mut self, bridge: &mut Bridge, key: u64)
        requires
            old(self).wf(),
        ensures
            final(self).wf(),
            world(final(self), final(bridge)) == world(old(self), old(bridge)).filter_packet(key),
    {
        self.slot_stats.ingest_custom_filtered = self.slot_stats.ingest_custom_filtered.wrapping_add(
            1,
        );
        bridge.drop_transaction(key);
    }

    /// Reports and counts a packet of the block engine that was taken in.
    pub fn report_packet(&mut self, bridge: &mut Bridge, id: PriorityId)
        requires
            old(self).wf(),
        ensures
            final(self).wf(),
            world(final(self), final(bridge)) == world(old(self), old(bridge)).report_packet(id),
    {
        self.emit_tx_event(
            bridge,
            id.key,
            id.priority,
            TransactionAction::Ingest { source: TransactionSource::Jito, bundle: None },
        );
        self.slot_stats.ingest_custom_ok = self.slot_stats.ingest_custom_ok.wrapping_add(1);
    }

    /// A packet of the block engine waits to be checked; if there is no room,
    /// the transaction of lowest priority makes some.
    pub fn admit_unchecked_packet(&mut self, bridge: &mut Bridge, id: PriorityId)
        requires
            old(self).wf(),
        ensures
            final(self).wf(),
            world(final(self), final(bridge)) == world(
                old(self),
                old(bridge),
            ).admit_unchecked_packet(id),
    {
        if heap_len(&self.unchecked_tx) == self.unchecked_capacity {
            self.evict_unchecked(bridge);
        }
        self.push_unchecked(id);
        self.report_packet(bridge, id);
    }
}

/// Letting go of a bundle looks only at the connection and at whether waiting
/// is told.
proof fn lemma_discard_frame(a: World, b: World, keys: Seq<u64>, n: int)
    requires
        a.b == b.b,
        a.s.tracks_queue == b.s.tracks_queue,
    ensures
        a.discard_upto(keys, n).b == b.discard_upto(keys, n).b,
        a.discard_upto(keys, n).s == a.s,
        b.discard_upto(keys, n).s == b.s,
    decreases n,
{
    if n > 0 {
        lemma_discard_frame(a, b, keys, n - 1);
    }
}

/// Letting go of old bundles does not look at the bundles that are kept.
proof fn lemma_expired_frame(a: World, b: World, bundles: Seq<crate::shared::BundleModel>, now: u64, n: int)
    requires
        a.b == b.b,
        a.s.tracks_queue == b.s.tracks_queue,
        a.s.runtime == b.s.runtime,
    ensures
        a.discard_expired_upto(bundles, now, n).b == b.discard_expired_upto(bundles, now, n).b,
        a.discard_expired_upto(bundles, now, n).s == a.s,
        b.discard_expired_upto(bundles, now, n).s == b.s,
    decreases n,
{
    if n > 0 {
        lemma_expired_frame(a, b, bundles, now, n - 1);
        let keys = bundles[n - 1].keys;
        lemma_discard_frame(
            a.discard_expired_upto(bundles, now, n - 1),
            b.discard_expired_upto(bundles, now, n - 1),
            keys,
            keys.len() as int,
        );
    }
}

/// Once a transaction of a bundle is refused, the rest is not looked at.
proof fn lemma_scan_stops(
    b: crate::bridge::BridgeModel,
    packets: Seq<Seq<u8>>,
    values: Seq<Option<(u64, u64)>>,
    n: int,
    m: int,
)
    requires
        0 <= n <= m,
        scan_upto(b, packets, values, n).totals is None,
    ensures
        scan_upto(b, packets, values, m) == scan_upto(b, packets, values, n),
    decreases m,
{
    if n < m {
        lemma_scan_stops(b, packets, values, n, m - 1);
    }
}

/// There is nothing more to evict from an empty queue.
proof fn lemma_evict_nothing(w: World, n: int, m: int)
    requires
        0 <= n <= m,
        w.evict_unchecked_upto(n).s.unchecked.len() == 0,
    ensures
        w.evict_unchecked_upto(m) == w.evict_unchecked_upto(n),
    decreases m,
{
    if n < m {
        lemma_evict_nothing(w, n, m - 1);
    }
}

} // verus!
