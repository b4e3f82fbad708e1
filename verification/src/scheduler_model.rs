//! What the parts shared by the schedulers hold, and how each step changes it.

use vstd::prelude::*;
use vstd::multiset::Multiset;

use crate::accounts::TIP_PAYMENT_PROGRAM;
use crate::bridge::{
    ActionModel, BatchModel, BridgeModel, KeyedTransactionMeta, ProgressMessage, TxDecision,
    CHECK_FLAGS, CHECK_WORKER, LEADER_READY,
};
use crate::containers::{greatest, least};
use crate::events::{
    Event, EventContext, EventEmitter, EvictReason, SlotStatsEvent, TransactionAction,
    TransactionSource,
};
use crate::jito::{BuilderConfig, TipConfig};
use crate::ordered::{predecessor, rank, with_item, without_item};
use crate::pubkey::Pubkey;
use crate::queues::with_executing;
use crate::shared::{BundleId, BundleModel, PriorityId, BUNDLE_MARKER};
use crate::tip_program::{
    change_packet, distribution_setup, ChangeTipReceiverArgs, Identity, TipDistributionArgs,
};
use crate::transaction::any_listed;
use crate::worker::{
    retryable, CheckResponse, ExecutionResponse, ResponseModel, ACCOUNT_IN_USE, NOT_INCLUDED_NONE,
};

verus! {

/// Slots in an epoch.
pub const SLOTS_PER_EPOCH: u64 = 432_000;

/// Values that can be changed while a scheduler runs. Times are in nanoseconds.
#[derive(Clone, Copy, Debug, PartialEq, Eq, Structural)]
pub struct RuntimeConfig {
    pub max_check_batches: usize,
    pub block_fill_cutoff: u8,
    pub progress_timeout: u64,
    pub bundle_expiry: u64,
}

impl Default for RuntimeConfig {
    fn default() -> (r: Self)
        ensures
            r.max_check_batches == 4,
            r.block_fill_cutoff == 20,
            r.progress_timeout == 5_000_000_000,
            r.bundle_expiry == 200_000_000,
    {
        RuntimeConfig {
            max_check_batches: 4,
            block_fill_cutoff: 20,
            progress_timeout: 5_000_000_000,
            bundle_expiry: 200_000_000,
        }
    }
}

/// What a scheduler is started with.
#[derive(Debug)]
pub struct CoreArgs {
    pub tip: TipDistributionArgs,
    pub identity: Identity,
    /// Accounts whose transactions are refused.
    pub filter_keys: Vec<Pubkey>,
    pub unchecked_capacity: usize,
    pub checked_capacity: usize,
    pub bundle_capacity: usize,
    pub runtime: RuntimeConfig,
}

/// What a scheduler holds, apart from its locks.
#[verifier::ext_equal]
pub struct CoreModel {
    pub identity: Identity,
    pub tip_distribution_config: TipDistributionArgs,
    pub filter_keys: Seq<Pubkey>,
    pub unchecked_capacity: usize,
    pub checked_capacity: usize,
    pub bundle_capacity: usize,
    pub runtime: RuntimeConfig,
    /// Whether the connection is told which locks are waited for.
    pub tracks_queue: bool,
    pub builder_config: BuilderConfig,
    pub tip_config: Option<TipConfig>,
    pub recent_blockhash: [u8; 32],
    pub bundles: Seq<BundleModel>,
    pub unchecked: Multiset<(u64, u64, u64)>,
    pub checked: Seq<PriorityId>,
    pub executing: Map<u64, u64>,
    pub deferred: Seq<(u64, u64, u64)>,
    pub next_recheck: Option<PriorityId>,
    pub in_flight_cus: u64,
    pub last_progress_time: u64,
    pub events: Option<EventEmitter>,
    pub slot: u64,
    pub stats: SlotStatsEvent,
}

/// A scheduler, apart from its locks, and its side of the connection.
#[verifier::ext_equal]
pub struct World {
    pub s: CoreModel,
    pub b: BridgeModel,
}

/// What a check says about a transaction, before its place is decided.
#[derive(Clone, Copy, Debug, PartialEq, Eq, Structural)]
pub enum CheckStep {
    /// Nothing more to do.
    Done(TxDecision),
    /// The transaction passed for the first time and needs a place.
    Admit,
}

/// How far a bundle was taken in.
#[verifier::ext_equal]
pub struct BundleScan {
    pub b: BridgeModel,
    pub keys: Seq<u64>,
    /// Cost and value so far, unless one of its transactions was refused.
    pub totals: Option<(u64, u64)>,
}

/// Whether a bundle is older than allowed.
pub open spec fn expired(bundle: BundleModel, now: u64, expiry: u64) -> bool {
    now > bundle.received_at && now - bundle.received_at > expiry
}

/// Of the first `n` bundles, those that are not too old.
pub open spec fn fresh_upto(bundles: Seq<BundleModel>, now: u64, expiry: u64, n: int) -> Seq<
    BundleModel,
>
    decreases n,
{
    if n <= 0 {
        Seq::empty()
    } else if expired(bundles[n - 1], now, expiry) {
        fresh_upto(bundles, now, expiry, n - 1)
    } else {
        fresh_upto(bundles, now, expiry, n - 1).push(bundles[n - 1])
    }
}

/// The last of the first `n` entries whose transaction does not execute.
pub open spec fn last_idle(checked: Seq<PriorityId>, executing: Map<u64, u64>, n: int) -> Option<int>
    decreases n,
{
    if n <= 0 {
        None
    } else if !executing.contains_key(checked[n - 1].key) {
        Some(n - 1)
    } else {
        last_idle(checked, executing, n - 1)
    }
}

/// The entry to check again, and the one after it, when a round of checks has
/// come down to `from`.
pub open spec fn recheck_step(
    checked: Seq<PriorityId>,
    executing: Map<u64, u64>,
    from: PriorityId,
) -> (Option<PriorityId>, Option<PriorityId>) {
    if checked.contains(from) && !executing.contains_key(from.key) {
        (Some(from), predecessor::<PriorityId>(checked, from))
    } else {
        match last_idle(checked, executing, rank::<PriorityId>(checked, from) as int) {
            Some(p) => (Some(checked[p]), if p == 0 { None } else { Some(checked[p - 1]) }),
            None => (None, None),
        }
    }
}

/// Adds up the cost and the value of the transactions of a bundle.
pub open spec fn add_totals(totals: (u64, u64), value: (u64, u64)) -> Option<(u64, u64)> {
    if totals.0 + value.0 <= u64::MAX && totals.1 + value.1 <= u64::MAX {
        Some(((totals.0 + value.0) as u64, (totals.1 + value.1) as u64))
    } else {
        None
    }
}

/// Takes in the first `n` transactions of a bundle, whose costs and values are
/// given; stops at the first that is refused.
pub open spec fn scan_upto(
    b: BridgeModel,
    packets: Seq<Seq<u8>>,
    values: Seq<Option<(u64, u64)>>,
    n: int,
) -> BundleScan
    decreases n,
{
    if n <= 0 {
        BundleScan { b, keys: Seq::empty(), totals: Some((0, 0)) }
    } else {
        let scan = scan_upto(b, packets, values, n - 1);
        match scan.totals {
            None => scan,
            Some(totals) => match scan.b.inserted(packets[n - 1]) {
                (next, None) => BundleScan { b: next, totals: None, ..scan },
                (next, Some(key)) => BundleScan {
                    b: next,
                    keys: scan.keys.push(key),
                    totals: match values[n - 1] {
                        Some(value) => add_totals(totals, value),
                        None => None,
                    },
                },
            },
        }
    }
}

/// Whether one of the transactions names a filtered account.
pub open spec fn any_filtered(b: BridgeModel, keys: Seq<u64>, filter: Seq<Pubkey>) -> bool {
    exists|i: int|
        0 <= i < keys.len() && b.transactions.contains_key(#[trigger] keys[i]) && any_listed(
            b.transactions[keys[i]].fields.account_keys,
            filter,
        )
}

impl CoreModel {
    /// A scheduler that was started with these arguments and has received
    /// nothing. The tip payment program is always filtered.
    pub open spec fn started(
        self,
        args: CoreArgs,
        builder_config: BuilderConfig,
        events: Option<EventEmitter>,
        tracks_queue: bool,
        now: u64,
    ) -> bool {
        &&& forall|key: Pubkey| #[trigger]
            self.filter_keys.contains(key) <==> (args.filter_keys@.contains(key) || key == (Pubkey {
                bytes: TIP_PAYMENT_PROGRAM,
            }))
        &&& self == (CoreModel {
            identity: args.identity,
            tip_distribution_config: args.tip,
            filter_keys: self.filter_keys,
            unchecked_capacity: args.unchecked_capacity,
            checked_capacity: args.checked_capacity,
            bundle_capacity: args.bundle_capacity,
            runtime: args.runtime,
            tracks_queue,
            builder_config,
            tip_config: None,
            recent_blockhash: self.recent_blockhash,
            bundles: Seq::empty(),
            unchecked: Multiset::empty(),
            checked: Seq::empty(),
            executing: Map::empty(),
            deferred: Seq::empty(),
            next_recheck: None,
            in_flight_cus: 0,
            last_progress_time: now,
            events,
            slot: 0,
            stats: SlotStatsEvent::zero(),
        })
        &&& forall|i: int| 0 <= i < 32 ==> #[trigger] self.recent_blockhash@[i] == 0
    }

    /// Transactions that passed their check and are not done.
    pub open spec fn pending(self) -> nat {
        self.checked.len() + self.executing.dom().len() + self.deferred.len()
    }

    /// With a round of checks of what waits to be executed under way.
    pub open spec fn recheck_started(self) -> CoreModel {
        match self.next_recheck {
            Some(_) => self,
            None => CoreModel {
                next_recheck: if self.checked.len() == 0 {
                    None
                } else {
                    Some(self.checked.last())
                },
                ..self
            },
        }
    }

    /// With a transaction no longer executing.
    pub open spec fn execution_stopped(self, key: u64) -> CoreModel {
        if self.executing.contains_key(key) {
            CoreModel {
                in_flight_cus: (self.in_flight_cus - self.executing[key]) as u64,
                executing: self.executing.remove(key),
                ..self
            }
        } else {
            self
        }
    }

    /// The next transaction to check: of those never checked the one of highest
    /// priority, or else the next one of the round of repeated checks.
    pub open spec fn next_check(self) -> (CoreModel, Option<PriorityId>) {
        if self.unchecked.len() > 0 {
            let id = greatest(self.unchecked);
            (
                CoreModel { unchecked: self.unchecked.remove(id), ..self },
                Some(PriorityId::of_triple(id)),
            )
        } else {
            match self.next_recheck {
                Some(from) => {
                    let (id, next) = recheck_step(self.checked, self.executing, from);
                    (CoreModel { next_recheck: next, ..self }, id)
                },
                None => (self, None),
            }
        }
    }

    /// Fills a message with at most `n` more transactions to check.
    pub open spec fn fill_checks(self, batch: Seq<KeyedTransactionMeta>, n: nat) -> (
        CoreModel,
        Seq<KeyedTransactionMeta>,
    )
        decreases n,
    {
        if n == 0 {
            (self, batch)
        } else {
            match self.next_check() {
                (s, Some(id)) => s.fill_checks(
                    batch.push(KeyedTransactionMeta { key: id.key, meta: id }),
                    (n - 1) as nat,
                ),
                (s, None) => (s, batch),
            }
        }
    }

    /// The packets that make this validator the receiver of tips: the one that
    /// sets up its distribution account, and the one that changes the receiver.
    pub open spec fn tip_packets(self) -> Option<(Seq<u8>, Seq<u8>)> {
        match (
            self.tip_config,
            distribution_setup(
                self.identity,
                self.tip_distribution_config,
                self.slot / SLOTS_PER_EPOCH,
                self.recent_blockhash,
            ),
        ) {
            (Some(tip_config), Some((account, init))) => match change_packet(
                self.identity,
                ChangeTipReceiverArgs {
                    old_tip_receiver: tip_config.tip_receiver,
                    new_tip_receiver: account,
                    old_block_builder: tip_config.block_builder,
                    new_block_builder: self.builder_config.key,
                    block_builder_commission: self.builder_config.commission,
                },
                self.recent_blockhash,
            ) {
                Some(change) => Some((init, change)),
                None => None,
            },
            _ => None,
        }
    }
}

impl World {
    /// Reports an event about a transaction.
    pub open spec fn report_tx(self, key: u64, priority: u64, action: TransactionAction) -> World {
        World {
            b: self.b.reported_tx(self.s.events, self.s.slot, key, priority, action),
            ..self
        }
    }

    /// Reports an event.
    pub open spec fn report(self, event: Event) -> World {
        World { b: self.b.reported(self.s.events, event), ..self }
    }

    /// Releases a transaction.
    pub open spec fn drop_tx(self, key: u64) -> World {
        World { b: self.b.dropped(key), ..self }
    }

    /// Tells that a transaction waits for its locks.
    pub open spec fn queue(self, key: u64) -> World {
        if self.s.tracks_queue {
            World { b: self.b.with_action(ActionModel::Queue { locks: self.b.locks(key) }), ..self }
        } else {
            self
        }
    }

    /// Tells that a transaction no longer waits for its locks.
    pub open spec fn dequeue(self, key: u64) -> World {
        if self.s.tracks_queue {
            World {
                b: self.b.with_action(ActionModel::Dequeue { locks: self.b.locks(key) }),
                ..self
            }
        } else {
            self
        }
    }

    /// Tells of the first `n` transactions that they wait.
    pub open spec fn queue_upto(self, keys: Seq<u64>, n: int) -> World
        decreases n,
    {
        if n <= 0 {
            self
        } else {
            self.queue_upto(keys, n - 1).queue(keys[n - 1])
        }
    }

    /// Tells of the first `n` transactions that they no longer wait.
    pub open spec fn dequeue_upto(self, keys: Seq<u64>, n: int) -> World
        decreases n,
    {
        if n <= 0 {
            self
        } else {
            self.dequeue_upto(keys, n - 1).dequeue(keys[n - 1])
        }
    }

    /// Lets go of the first `n` waiting transactions of a bundle.
    pub open spec fn discard_upto(self, keys: Seq<u64>, n: int) -> World
        decreases n,
    {
        if n <= 0 {
            self
        } else {
            self.discard_upto(keys, n - 1).dequeue(keys[n - 1]).drop_tx(keys[n - 1])
        }
    }

    /// Lets go of the waiting transactions of a bundle.
    pub open spec fn discard(self, keys: Seq<u64>) -> World {
        self.discard_upto(keys, keys.len() as int)
    }

    /// Evicts the transaction of lowest priority that waits to be checked.
    pub open spec fn evict_unchecked(self) -> World {
        if self.s.unchecked.len() == 0 {
            self
        } else {
            let id = least(self.s.unchecked);
            World {
                s: CoreModel { unchecked: self.s.unchecked.remove(id), ..self.s },
                ..self
            }.report_tx(
                id.2,
                id.0,
                TransactionAction::Evict { reason: EvictReason::UncheckedCapacity },
            ).drop_tx(id.2)
        }
    }

    /// Evicts the `n` transactions of lowest priority that wait to be checked.
    pub open spec fn evict_unchecked_upto(self, n: int) -> World
        decreases n,
    {
        if n <= 0 {
            self
        } else {
            self.evict_unchecked_upto(n - 1).evict_unchecked()
        }
    }

    /// A transaction waits to be checked.
    pub open spec fn push_unchecked(self, id: PriorityId) -> World {
        World { s: CoreModel { unchecked: self.s.unchecked.insert(id.triple()), ..self.s }, ..self }
    }

    /// A transaction waits to be executed.
    pub open spec fn insert_checked(self, id: PriorityId) -> World {
        let w = self.queue(id.key);
        World {
            s: CoreModel { checked: with_item::<PriorityId>(w.s.checked, id), ..w.s },
            ..w
        }
    }

    /// A transaction no longer waits to be executed.
    pub open spec fn remove_checked(self, id: PriorityId) -> World {
        if self.s.checked.contains(id) {
            World {
                s: CoreModel { checked: without_item::<PriorityId>(self.s.checked, id), ..self.s },
                ..self
            }.dequeue(id.key)
        } else {
            self
        }
    }

    /// The transaction of lowest priority no longer waits to be executed.
    pub open spec fn pop_first_checked(self) -> World {
        if self.s.checked.len() == 0 {
            self
        } else {
            World {
                s: CoreModel { checked: self.s.checked.drop_first(), ..self.s },
                ..self
            }.dequeue(self.s.checked.first().key)
        }
    }

    /// Evicts the transaction of lowest priority that waits to be executed.
    pub open spec fn evict_checked(self) -> World {
        if self.s.checked.len() == 0 {
            self
        } else {
            let id = self.s.checked.first();
            self.pop_first_checked().report_tx(
                id.key,
                id.priority,
                TransactionAction::Evict { reason: EvictReason::CheckedCapacity },
            ).drop_tx(id.key)
        }
    }

    /// Notes where the validator stands.
    pub open spec fn note_progress(self, update: Option<ProgressMessage>, now: u64) -> World {
        match update {
            Some(progress) => World {
                s: CoreModel { last_progress_time: now, ..self.s },
                b: BridgeModel { progress, ..self.b },
            },
            None => self,
        }
    }

    /// The first `n` deferred transactions wait to be executed again.
    pub open spec fn restore_upto(self, deferred: Seq<(u64, u64, u64)>, n: int) -> World
        decreases n,
    {
        if n <= 0 {
            self
        } else {
            self.restore_upto(deferred, n - 1).insert_checked(
                PriorityId::of_triple(deferred[n - 1]),
            )
        }
    }

    /// Starts a round of checks of what waits to be executed, unless one is
    /// under way.
    pub open spec fn start_recheck(self) -> World {
        World { s: self.s.recheck_started(), ..self }
    }

    /// Reports the end of the last slot and the start of the new one.
    pub open spec fn report_roll(self) -> World {
        match self.s.events {
            Some(emitter) => {
                let w = if self.s.slot != 0 {
                    World {
                        s: CoreModel { stats: SlotStatsEvent::zero(), ..self.s },
                        ..self.report(Event::SlotStats(self.s.stats))
                    }
                } else {
                    self
                };
                World {
                    s: CoreModel {
                        events: Some(
                            EventEmitter {
                                ctx: EventContext { slot: self.b.progress.current_slot },
                            },
                        ),
                        ..w.s
                    },
                    ..w
                }.report(Event::SlotStart)
            },
            None => self,
        }
    }

    /// Moves on to the validator's slot, if it is another one.
    pub open spec fn roll_slot(self) -> World {
        if self.b.progress.current_slot == self.s.slot {
            self
        } else {
            let w = self.report_roll();
            let deferred = w.s.deferred;
            World {
                s: CoreModel {
                    slot: self.b.progress.current_slot,
                    stats: SlotStatsEvent { was_leader_ready: false, ..w.s.stats },
                    deferred: Seq::empty(),
                    ..w.s
                },
                ..w
            }.restore_upto(deferred, deferred.len() as int).start_recheck()
        }
    }

    /// Whether the validator has just become leader.
    pub open spec fn becomes_leader(self) -> bool {
        self.b.progress.leader_state == LEADER_READY && !self.s.stats.was_leader_ready
    }

    /// Reports that the validator became leader.
    pub open spec fn report_leader(self) -> World {
        let w = self.report(Event::LeaderReady);
        World {
            s: CoreModel {
                stats: SlotStatsEvent { was_leader_ready: true, ..w.s.stats },
                ..w.s
            },
            ..w
        }
    }

    /// A transaction is no longer executing.
    pub open spec fn stop_executing(self, key: u64) -> World {
        World { s: self.s.execution_stopped(key), ..self }
    }

    /// A transaction came back unprocessed. If it was to be executed, it waits
    /// again; the transactions of a bundle are not tried again.
    pub open spec fn unprocessed(self, meta: PriorityId) -> (World, TxDecision) {
        if !self.s.executing.contains_key(meta.key) {
            (self, TxDecision::Keep)
        } else if meta.priority == BUNDLE_MARKER {
            (self.stop_executing(meta.key), TxDecision::Drop)
        } else {
            let w = self.stop_executing(meta.key).report_tx(
                meta.key,
                meta.priority,
                TransactionAction::ExecuteUnprocessed,
            );
            (
                World {
                    s: CoreModel {
                        stats: SlotStatsEvent {
                            execute_unprocessed: w.s.stats.execute_unprocessed.wrapping_add(1),
                            ..w.s.stats
                        },
                        ..w.s
                    },
                    ..w
                }.insert_checked(meta),
                TxDecision::Keep,
            )
        }
    }

    /// Reports how an execution ended, and counts it.
    pub open spec fn report_execution(self, meta: PriorityId, reason: u8) -> World {
        if reason == NOT_INCLUDED_NONE {
            World {
                s: CoreModel {
                    stats: SlotStatsEvent {
                        execute_ok: self.s.stats.execute_ok.wrapping_add(1),
                        ..self.s.stats
                    },
                    ..self.s
                },
                ..self
            }.report_tx(meta.key, meta.priority, TransactionAction::ExecuteOk)
        } else {
            World {
                s: CoreModel {
                    stats: SlotStatsEvent {
                        execute_err: self.s.stats.execute_err.wrapping_add(1),
                        ..self.s.stats
                    },
                    ..self.s
                },
                ..self
            }.report_tx(
                meta.key,
                meta.priority,
                TransactionAction::ExecuteErr { reason: reason as u32 },
            )
        }
    }

    /// A transaction that failed waits for the next slot.
    pub open spec fn defer(self, meta: PriorityId) -> World {
        World {
            s: CoreModel {
                deferred: if self.s.deferred.contains(meta.triple()) {
                    self.s.deferred
                } else {
                    self.s.deferred.push(meta.triple())
                },
                ..self.s
            },
            ..self
        }
    }

    /// A transaction was executed, or could not be. What may succeed later is
    /// kept: for the next slot if it was tried in this one, unless it only met
    /// a lock. The transactions of a bundle are not tried again.
    pub open spec fn executed(self, meta: PriorityId, rep: ExecutionResponse) -> (World, TxDecision) {
        let w = self.stop_executing(meta.key).report_execution(meta, rep.not_included_reason);
        if meta.priority == BUNDLE_MARKER || !retryable(rep.not_included_reason) {
            (w, TxDecision::Drop)
        } else {
            let kept = if rep.execution_slot == w.s.slot && rep.not_included_reason
                != ACCOUNT_IN_USE {
                w.defer(meta)
            } else {
                w.insert_checked(meta)
            };
            if kept.s.pending() > kept.s.checked_capacity {
                (kept.evict_checked(), TxDecision::Keep)
            } else {
                (kept, TxDecision::Keep)
            }
        }
    }

    /// Counts a check that passed.
    pub open spec fn count_check_ok(self) -> World {
        World {
            s: CoreModel {
                stats: SlotStatsEvent {
                    check_ok: self.s.stats.check_ok.wrapping_add(1),
                    ..self.s.stats
                },
                ..self.s
            },
            ..self
        }
    }

    /// Counts an eviction for want of room.
    pub open spec fn count_check_evict(self) -> World {
        World {
            s: CoreModel {
                stats: SlotStatsEvent {
                    check_evict: self.s.stats.check_evict.wrapping_add(1),
                    ..self.s.stats
                },
                ..self.s
            },
            ..self
        }
    }

    /// A transaction was checked. The answer about one that executes or waits
    /// for the next slot is ignored; one that fails is let go of, as is one
    /// whose lookups name a filtered account.
    pub open spec fn check_step(
        self,
        meta: PriorityId,
        rep: CheckResponse,
        resolved_keys: Option<Seq<Pubkey>>,
    ) -> (World, CheckStep) {
        if self.s.executing.contains_key(meta.key) || self.s.deferred.contains(meta.triple()) {
            (self, CheckStep::Done(TxDecision::Keep))
        } else {
            match rep.failure() {
                Some(reason) => {
                    let w = self.report_tx(
                        meta.key,
                        meta.priority,
                        TransactionAction::CheckErr { reason },
                    );
                    (
                        World {
                            s: CoreModel {
                                stats: SlotStatsEvent {
                                    check_err: w.s.stats.check_err.wrapping_add(1),
                                    ..w.s.stats
                                },
                                ..w.s
                            },
                            ..w
                        }.remove_checked(meta),
                        CheckStep::Done(TxDecision::Drop),
                    )
                },
                None => if self.s.checked.contains(meta) {
                    (self.count_check_ok(), CheckStep::Done(TxDecision::Keep))
                } else if resolved_keys matches Some(keys) && any_listed(keys, self.s.filter_keys) {
                    (
                        World {
                            s: CoreModel {
                                stats: SlotStatsEvent {
                                    check_filtered: self.s.stats.check_filtered.wrapping_add(1),
                                    ..self.s.stats
                                },
                                ..self.s
                            },
                            ..self
                        },
                        CheckStep::Done(TxDecision::Drop),
                    )
                } else {
                    (self, CheckStep::Admit)
                },
            }
        }
    }

    /// Whether with a worker's answer a transaction that executes is done.
    pub open spec fn ends_execution(self, meta: PriorityId, response: ResponseModel) -> bool {
        &&& !(response is Check)
        &&& self.b.transactions.contains_key(meta.key)
        &&& self.s.executing.contains_key(meta.key)
    }

    /// Whether a worker's answer makes sense: one to a check is consistent, unless
    /// it is ignored anyway; and one that ends an execution names the cost that
    /// was sent.
    pub open spec fn accepts_answer(self, meta: PriorityId, response: ResponseModel) -> bool {
        &&& response matches ResponseModel::Check(rep, _) ==> {
            ||| rep.consistent()
            ||| !self.b.transactions.contains_key(meta.key)
            ||| self.s.executing.contains_key(meta.key)
            ||| self.s.deferred.contains(meta.triple())
        }
        &&& self.ends_execution(meta, response) ==> self.s.executing[meta.key] == meta.cost
    }

    /// How many more messages the check worker can be sent.
    pub open spec fn check_room(self) -> nat {
        if self.b.workers.len() == 0 {
            0
        } else {
            self.b.workers[0].room() as nat
        }
    }

    /// Sends at most `n` messages to the check worker, as long as its queue is
    /// short and there is something to check.
    pub open spec fn send_checks(self, n: nat) -> World
        decreases n,
    {
        if n == 0 || self.check_room() == 0 || self.b.workers[0].len
            >= self.s.runtime.max_check_batches {
            self
        } else {
            let (s, batch) = self.s.fill_checks(Seq::empty(), 64);
            if batch.len() == 0 {
                World { s, ..self }
            } else {
                World {
                    s,
                    b: self.b.scheduled(
                        BatchModel {
                            worker: CHECK_WORKER,
                            transactions: batch,
                            max_working_slot: u64::MAX,
                            flags: CHECK_FLAGS,
                        },
                    ),
                }.send_checks((n - 1) as nat)
            }
        }
    }

    /// Sends what there is to check, and counts the first checks.
    pub open spec fn schedule_checks(self) -> World {
        let w = self.send_checks(self.check_room());
        World {
            s: CoreModel {
                stats: SlotStatsEvent {
                    check_requested: w.s.stats.check_requested.wrapping_add(
                        (self.s.unchecked.len() - w.s.unchecked.len()) as u64,
                    ),
                    ..w.s.stats
                },
                ..w.s
            },
            ..w
        }
    }

    /// A transaction executes.
    pub open spec fn mark_executing(self, tx: KeyedTransactionMeta) -> World {
        World {
            s: CoreModel {
                executing: with_executing(self.s.executing, tx.key, tx.meta.cost),
                in_flight_cus: (self.s.in_flight_cus + tx.meta.cost) as u64,
                ..self.s
            },
            ..self
        }.report_tx(tx.key, tx.meta.priority, TransactionAction::ExecuteReq)
    }

    /// The first `n` transactions of a message execute.
    pub open spec fn mark_executing_upto(self, batch: Seq<KeyedTransactionMeta>, n: int) -> World
        decreases n,
    {
        if n <= 0 {
            self
        } else {
            self.mark_executing_upto(batch, n - 1).mark_executing(batch[n - 1])
        }
    }

    /// The transactions of a message execute; counts them.
    pub open spec fn start_batch(self, batch: Seq<KeyedTransactionMeta>) -> World {
        let w = self.mark_executing_upto(batch, batch.len() as int);
        World {
            s: CoreModel {
                stats: SlotStatsEvent {
                    execute_requested: w.s.stats.execute_requested.wrapping_add(batch.len() as u64),
                    ..w.s.stats
                },
                ..w.s
            },
            ..w
        }
    }

    /// Lets go of those of the first `n` bundles that are too old.
    pub open spec fn discard_expired_upto(self, bundles: Seq<BundleModel>, now: u64, n: int) -> World
        decreases n,
    {
        if n <= 0 {
            self
        } else if expired(bundles[n - 1], now, self.s.runtime.bundle_expiry) {
            self.discard_expired_upto(bundles, now, n - 1).discard(bundles[n - 1].keys)
        } else {
            self.discard_expired_upto(bundles, now, n - 1)
        }
    }

    /// Lets go of the bundles that are too old.
    pub open spec fn drop_expired_bundles(self, now: u64) -> World {
        let n = self.s.bundles.len() as int;
        World {
            s: CoreModel {
                bundles: fresh_upto(self.s.bundles, now, self.s.runtime.bundle_expiry, n),
                ..self.s
            },
            ..self
        }.discard_expired_upto(self.s.bundles, now, n)
    }

    /// Takes in the transactions of a bundle, whose costs and values are given.
    /// All of them are let go of if one is refused or names a filtered account.
    pub open spec fn scan_bundle(
        self,
        packets: Seq<Seq<u8>>,
        values: Seq<Option<(u64, u64)>>,
    ) -> (World, Option<(Seq<u64>, u64, u64)>) {
        let scan = scan_upto(self.b, packets, values, packets.len() as int);
        match scan.totals {
            Some((cost, value)) => if packets.len() == 0 || any_filtered(
                scan.b,
                scan.keys,
                self.s.filter_keys,
            ) {
                (World { b: scan.b.dropped_all(scan.keys), ..self }, None)
            } else {
                (World { b: scan.b, ..self }, Some((scan.keys, cost, value)))
            },
            None => (World { b: scan.b.dropped_all(scan.keys), ..self }, None),
        }
    }

    /// Reports of the first `n` transactions of a bundle that they came in.
    pub open spec fn report_bundle_upto(
        self,
        keys: Seq<u64>,
        priority: u64,
        action: TransactionAction,
        n: int,
    ) -> World
        decreases n,
    {
        if n <= 0 {
            self
        } else {
            self.report_bundle_upto(keys, priority, action, n - 1).report_tx(
                keys[n - 1],
                priority,
                action,
            )
        }
    }

    /// What is reported when a bundle comes in; the signature of its first
    /// transaction names it.
    pub open spec fn bundle_ingest(self, keys: Seq<u64>) -> TransactionAction {
        TransactionAction::Ingest {
            source: TransactionSource::Jito,
            bundle: if keys.len() > 0 && self.b.transactions.contains_key(keys[0]) {
                Some(self.b.transactions[keys[0]].fields.signature)
            } else {
                None
            },
        }
    }

    /// Lets go of the bundle of lowest priority, if there is no room.
    pub open spec fn evict_bundle(self) -> World {
        if self.s.bundles.len() == self.s.bundle_capacity && self.s.bundles.len() > 0 {
            World {
                s: CoreModel { bundles: self.s.bundles.drop_first(), ..self.s },
                ..self
            }.discard(self.s.bundles.first().keys)
        } else {
            self
        }
    }

    /// A bundle waits to be executed.
    pub open spec fn store_bundle(self, bundle: BundleModel) -> World {
        let w = self.report_bundle_upto(
            bundle.keys,
            bundle.priority,
            self.bundle_ingest(bundle.keys),
            bundle.keys.len() as int,
        ).evict_bundle().queue_upto(bundle.keys, bundle.keys.len() as int);
        World {
            s: CoreModel { bundles: with_item::<BundleId>(w.s.bundles, bundle), ..w.s },
            ..w
        }
    }

    /// Whether a transaction names a filtered account.
    pub open spec fn filtered(self, key: u64) -> bool {
        self.b.transactions.contains_key(key) && any_listed(
            self.b.transactions[key].fields.account_keys,
            self.s.filter_keys,
        )
    }

    /// Makes room for transactions that are about to arrive, and counts what
    /// would be needed for it.
    pub open spec fn make_room(self, additional: nat) -> World {
        let shortfall = crate::worker::floored(
            (self.s.unchecked.len() + additional) as int,
            self.s.unchecked_capacity as int,
        );
        let w = self.evict_unchecked_upto(shortfall);
        World {
            s: CoreModel {
                stats: SlotStatsEvent {
                    ingest_tpu_evict: w.s.stats.ingest_tpu_evict.wrapping_add(shortfall as u64),
                    ..w.s.stats
                },
                ..w.s
            },
            ..w
        }
    }

    /// Counts a transaction of the validator that could not be scored.
    pub open spec fn count_tpu_err(self) -> World {
        World {
            s: CoreModel {
                stats: SlotStatsEvent {
                    ingest_tpu_err: self.s.stats.ingest_tpu_err.wrapping_add(1),
                    ..self.s.stats
                },
                ..self.s
            },
            ..self
        }
    }

    /// Counts a transaction of the validator that names a filtered account.
    pub open spec fn count_tpu_filtered(self) -> World {
        World {
            s: CoreModel {
                stats: SlotStatsEvent {
                    ingest_tpu_filtered: self.s.stats.ingest_tpu_filtered.wrapping_add(1),
                    ..self.s.stats
                },
                ..self.s
            },
            ..self
        }
    }

    /// Reports and counts a transaction of the validator that was taken in.
    pub open spec fn report_tpu(self, id: PriorityId) -> World {
        let w = self.report_tx(
            id.key,
            id.priority,
            TransactionAction::Ingest { source: TransactionSource::Tpu, bundle: None },
        );
        World {
            s: CoreModel {
                stats: SlotStatsEvent {
                    ingest_tpu_ok: w.s.stats.ingest_tpu_ok.wrapping_add(1),
                    ..w.s.stats
                },
                ..w.s
            },
            ..w
        }
    }

    /// Counts a packet of the block engine that could not be scored, and lets
    /// go of it.
    pub open spec fn refuse_packet(self, key: u64) -> World {
        World {
            s: CoreModel {
                stats: SlotStatsEvent {
                    ingest_custom_err: self.s.stats.ingest_custom_err.wrapping_add(1),
                    ..self.s.stats
                },
                ..self.s
            },
            ..self
        }.drop_tx(key)
    }

    /// Counts a packet of the block engine that names a filtered account, and
    /// lets go of it.
    pub open spec fn filter_packet(self, key: u64) -> World {
        World {
            s: CoreModel {
                stats: SlotStatsEvent {
                    ingest_custom_filtered: self.s.stats.ingest_custom_filtered.wrapping_add(1),
                    ..self.s.stats
                },
                ..self.s
            },
            ..self
        }.drop_tx(key)
    }

    /// Reports and counts a packet of the block engine that was taken in.
    pub open spec fn report_packet(self, id: PriorityId) -> World {
        let w = self.report_tx(
            id.key,
            id.priority,
            TransactionAction::Ingest { source: TransactionSource::Jito, bundle: None },
        );
        World {
            s: CoreModel {
                stats: SlotStatsEvent {
                    ingest_custom_ok: w.s.stats.ingest_custom_ok.wrapping_add(1),
                    ..w.s.stats
                },
                ..w.s
            },
            ..w
        }
    }

    /// A packet of the block engine waits to be checked; if there is no room,
    /// the transaction of lowest priority makes some.
    pub open spec fn admit_unchecked_packet(self, id: PriorityId) -> World {
        let w = if self.s.unchecked.len() == self.s.unchecked_capacity {
            self.evict_unchecked()
        } else {
            self
        };
        w.push_unchecked(id).report_packet(id)
    }
}

} // verus!
