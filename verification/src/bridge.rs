//! The scheduler's side of the connection to the validator.
//!
//! A [`Bridge`] holds what the scheduler knows of the validator (its progress,
//! its workers' queues and the transactions in shared memory) and collects the
//! actions that the scheduler decides on, for the connection to carry out.

use vstd::prelude::*;
use std::collections::HashMap;

use crate::costs::{RuntimeModel, RuntimeState};
use crate::events::{Event, EventEmitter, StampedEvent, TransactionAction, TransactionEvent};
use crate::pubkey::Pubkey;
use crate::shared::PriorityId;
use crate::transaction::{
    optional_seq, sanitize_packet, sanitized_transaction, TransactionModel, TransactionState,
};

verus! {

broadcast use vstd::std_specs::hash::group_hash_axioms;

/// Leader states of a progress message.
pub const NOT_LEADER: u8 = 0;

pub const LEADER_STARTING: u8 = 1;

pub const LEADER_READY: u8 = 2;

/// The worker that checks transactions.
pub const CHECK_WORKER: usize = 0;

/// The first of the workers that execute transactions.
pub const EXECUTE_WORKER_START: usize = 1;

/// Most transactions that one message to a worker can carry.
pub const MAX_TRANSACTIONS_PER_MESSAGE: usize = 64;

/// Flags of a message to a worker that asks for checks.
pub const CHECK_FLAGS: u16 = 14;

/// Flags of a message to a worker that asks for execution.
pub const EXECUTE_FLAGS: u16 = 1;

/// Execution whose failures are dropped.
pub const EXECUTE_DROP_FLAGS: u16 = 3;

/// Execution of all transactions or none, whose failures are dropped.
pub const EXECUTE_BUNDLE_FLAGS: u16 = 7;

/// Where the validator stands.
#[derive(Clone, Copy, Debug, PartialEq, Eq, Structural)]
pub struct ProgressMessage {
    pub leader_state: u8,
    /// How far the current slot is through, in percent.
    pub current_slot_progress: u8,
    pub current_slot: u64,
    pub next_leader_slot: u64,
    /// Cost units that the current block has left.
    pub remaining_cost_units: u64,
}

/// The queue of messages to a worker.
#[derive(Clone, Copy, Debug, PartialEq, Eq, Structural)]
pub struct WorkerQueue {
    pub len: usize,
    pub capacity: usize,
}

impl WorkerQueue {
    /// How many more messages fit.
    pub open spec fn room(self) -> int {
        if self.len < self.capacity {
            self.capacity - self.len
        } else {
            0
        }
    }

    /// How many more messages fit.
    pub fn rem(&self) -> (r: usize)
        ensures
            r == self.room(),
    {
        if self.len < self.capacity {
            self.capacity - self.len
        } else {
            0
        }
    }

    /// Whether no message waits.
    pub fn is_empty(&self) -> (r: bool)
        ensures
            r == (self.len == 0),
    {
        self.len == 0
    }
}

/// A transaction in a message to a worker, with its queue entry.
#[derive(Clone, Copy, Debug, PartialEq, Eq, Structural)]
pub struct KeyedTransactionMeta {
    pub key: u64,
    pub meta: PriorityId,
}

/// A message to a worker.
#[derive(Debug)]
pub struct ScheduleBatch {
    pub worker: usize,
    pub transactions: Vec<KeyedTransactionMeta>,
    pub max_working_slot: u64,
    pub flags: u16,
}

/// What a message to a worker holds.
#[verifier::ext_equal]
pub struct BatchModel {
    pub worker: usize,
    pub transactions: Seq<KeyedTransactionMeta>,
    pub max_working_slot: u64,
    pub flags: u16,
}

impl View for ScheduleBatch {
    type V = BatchModel;

    open spec fn view(&self) -> BatchModel {
        BatchModel {
            worker: self.worker,
            transactions: self.transactions@,
            max_working_slot: self.max_working_slot,
            flags: self.flags,
        }
    }
}

/// What becomes of a transaction that was handed to the scheduler.
#[derive(Clone, Copy, Debug, PartialEq, Eq, Structural)]
pub enum TxDecision {
    Keep,
    Drop,
}

/// Something for the connection to carry out.
#[derive(Debug)]
pub enum Action {
    /// Put a packet into shared memory, as the transaction with this key.
    Insert { key: u64, packet: Vec<u8> },
    /// Release a transaction.
    Drop { key: u64 },
    /// Send a message to a worker.
    Schedule { batch: ScheduleBatch },
    /// Report an event.
    Emit { event: StampedEvent },
    /// Transactions that need these locks now wait for execution.
    Queue { locks: Vec<(Pubkey, bool)> },
    /// Transactions that need these locks no longer wait.
    Dequeue { locks: Vec<(Pubkey, bool)> },
}

/// What an action holds.
#[verifier::ext_equal]
pub enum ActionModel {
    Insert { key: u64, packet: Seq<u8> },
    Drop { key: u64 },
    Schedule { batch: BatchModel },
    Emit { event: StampedEvent },
    Queue { locks: Seq<(Pubkey, bool)> },
    Dequeue { locks: Seq<(Pubkey, bool)> },
}

impl View for Action {
    type V = ActionModel;

    open spec fn view(&self) -> ActionModel {
        match self {
            Action::Insert { key, packet } => ActionModel::Insert { key: *key, packet: packet@ },
            Action::Drop { key } => ActionModel::Drop { key: *key },
            Action::Schedule { batch } => ActionModel::Schedule { batch: batch@ },
            Action::Emit { event } => ActionModel::Emit { event: *event },
            Action::Queue { locks } => ActionModel::Queue { locks: locks@ },
            Action::Dequeue { locks } => ActionModel::Dequeue { locks: locks@ },
        }
    }
}

/// The scheduler's side of the connection.
pub struct Bridge {
    pub runtime: RuntimeState,
    pub progress: ProgressMessage,
    pub workers: Vec<WorkerQueue>,
    pub transactions: HashMap<u64, TransactionState>,
    pub next_key: u64,
    pub actions: Vec<Action>,
}

/// What the scheduler's side of the connection holds.
#[verifier::ext_equal]
pub struct BridgeModel {
    pub runtime: RuntimeModel,
    pub progress: ProgressMessage,
    pub workers: Seq<WorkerQueue>,
    pub transactions: Map<u64, TransactionModel>,
    pub next_key: u64,
    pub actions: Seq<ActionModel>,
}

impl View for Bridge {
    type V = BridgeModel;

    open spec fn view(&self) -> BridgeModel {
        BridgeModel {
            runtime: self.runtime@,
            progress: self.progress,
            workers: self.workers@,
            transactions: self.transactions@.map_values(|t: TransactionState| t@),
            next_key: self.next_key,
            actions: self.actions@.map_values(|a: Action| a@),
        }
    }
}

/// The transaction that a packet holds, if it is well formed.
pub open spec fn packet_transaction(packet: Seq<u8>, simple_vote: bool) -> Option<TransactionModel> {
    match sanitized_transaction(packet) {
        Some(fields) => Some(TransactionModel { packet, fields, simple_vote, resolved: None }),
        None => None,
    }
}

impl BridgeModel {
    /// With one more action to carry out.
    pub open spec fn with_action(self, action: ActionModel) -> BridgeModel {
        BridgeModel { actions: self.actions.push(action), ..self }
    }

    /// With a transaction under the next key, if the packet holds one and there
    /// is a key left.
    pub open spec fn received(self, packet: Seq<u8>, simple_vote: bool) -> (
        BridgeModel,
        Option<u64>,
    ) {
        match packet_transaction(packet, simple_vote) {
            Some(tx) if self.next_key < u64::MAX => (
                BridgeModel {
                    transactions: self.transactions.insert(self.next_key, tx),
                    next_key: (self.next_key + 1) as u64,
                    ..self
                },
                Some(self.next_key),
            ),
            _ => (self, None),
        }
    }

    /// With a transaction of the scheduler's own, to be put into shared memory.
    pub open spec fn inserted(self, packet: Seq<u8>) -> (BridgeModel, Option<u64>) {
        match self.received(packet, false) {
            (b, Some(key)) => (b.with_action(ActionModel::Insert { key, packet }), Some(key)),
            (b, None) => (b, None),
        }
    }

    /// Without a transaction.
    pub open spec fn dropped(self, key: u64) -> BridgeModel {
        if self.transactions.contains_key(key) {
            BridgeModel { transactions: self.transactions.remove(key), ..self }.with_action(
                ActionModel::Drop { key },
            )
        } else {
            self
        }
    }

    /// Without the first `n` of some transactions.
    pub open spec fn dropped_upto(self, keys: Seq<u64>, n: int) -> BridgeModel
        decreases n,
    {
        if n <= 0 {
            self
        } else {
            self.dropped_upto(keys, n - 1).dropped(keys[n - 1])
        }
    }

    /// Without some transactions.
    pub open spec fn dropped_all(self, keys: Seq<u64>) -> BridgeModel {
        self.dropped_upto(keys, keys.len() as int)
    }

    /// With a message to a worker.
    pub open spec fn scheduled(self, batch: BatchModel) -> BridgeModel {
        BridgeModel {
            workers: if batch.worker < self.workers.len() {
                self.workers.update(
                    batch.worker as int,
                    WorkerQueue {
                        len: if self.workers[batch.worker as int].len < usize::MAX {
                            (self.workers[batch.worker as int].len + 1) as usize
                        } else {
                            usize::MAX
                        },
                        ..self.workers[batch.worker as int]
                    },
                )
            } else {
                self.workers
            },
            ..self
        }.with_action(ActionModel::Schedule { batch })
    }

    /// With the keys that a transaction's lookups resolved to.
    pub open spec fn resolved(self, key: u64, keys: Option<Seq<Pubkey>>) -> BridgeModel {
        if self.transactions.contains_key(key) {
            BridgeModel {
                transactions: self.transactions.insert(
                    key,
                    TransactionModel { resolved: keys, ..self.transactions[key] },
                ),
                ..self
            }
        } else {
            self
        }
    }

    /// The locks that a transaction needs.
    pub open spec fn locks(self, key: u64) -> Seq<(Pubkey, bool)> {
        if self.transactions.contains_key(key) {
            self.transactions[key].locks()
        } else {
            Seq::empty()
        }
    }

    /// With an event reported, if events are wanted.
    pub open spec fn reported(self, events: Option<EventEmitter>, event: Event) -> BridgeModel {
        match events {
            Some(emitter) => self.with_action(
                ActionModel::Emit { event: StampedEvent { slot: emitter.ctx.slot, event } },
            ),
            None => self,
        }
    }

    /// With an event about a transaction reported, if events are wanted and the
    /// transaction is not a simple vote.
    pub open spec fn reported_tx(
        self,
        events: Option<EventEmitter>,
        slot: u64,
        key: u64,
        priority: u64,
        action: TransactionAction,
    ) -> BridgeModel {
        if self.transactions.contains_key(key) && !self.transactions[key].simple_vote {
            self.reported(
                events,
                Event::Transaction(
                    TransactionEvent {
                        signature: self.transactions[key].fields.signature,
                        slot,
                        priority,
                        action,
                    },
                ),
            )
        } else {
            self
        }
    }
}

impl Bridge {
    /// A connection over which nothing has been received.
    pub fn new(runtime: RuntimeState, workers: Vec<WorkerQueue>) -> (b: Self)
        ensures
            b@ == (BridgeModel {
                runtime: runtime@,
                progress: ProgressMessage {
                    leader_state: NOT_LEADER,
                    current_slot_progress: 0,
                    current_slot: 0,
                    next_leader_slot: u64::MAX,
                    remaining_cost_units: 0,
                },
                workers: workers@,
                transactions: Map::empty(),
                next_key: 0,
                actions: Seq::empty(),
            }),
    {
        let b = Bridge {
            runtime,
            progress: ProgressMessage {
                leader_state: NOT_LEADER,
                current_slot_progress: 0,
                current_slot: 0,
                next_leader_slot: u64::MAX,
                remaining_cost_units: 0,
            },
            workers,
            transactions: HashMap::new(),
            next_key: 0,
            actions: Vec::new(),
        };
        assert(b@.transactions =~= Map::empty());
        assert(b@.actions =~= Seq::empty());
        b
    }

    /// Adds an action to carry out.
    pub fn push_action(&mut self, action: Action)
        ensures
            final(self)@ == old(self)@.with_action(action@),
    {
        self.actions.push(action);
        assert(self@.actions =~= old(self)@.actions.push(action@));
    }

    /// Hands the collected actions over.
    pub fn take_actions(&mut self) -> (r: Vec<Action>)
        ensures
            r@.map_values(|a: Action| a@) == old(self)@.actions,
            final(self)@ == (BridgeModel { actions: Seq::empty(), ..old(self)@ }),
    {
        let mut taken: Vec<Action> = Vec::new();
        std::mem::swap(&mut taken, &mut self.actions);
        assert(self@.actions =~= Seq::empty());
        taken
    }

    /// Notes a transaction that arrived in shared memory.
    pub fn receive_transaction(&mut self, packet: &[u8], simple_vote: bool) -> (r: Option<u64>)
        ensures
            (final(self)@, r) == old(self)@.received(packet@, simple_vote),
    {
        if self.next_key == u64::MAX {
            return None;
        }
        match sanitize_packet(packet) {
            Some(fields) => {
                let key: u64 = self.next_key;
                let state = TransactionState {
                    packet: vstd::slice::slice_to_vec(packet),
                    fields,
                    simple_vote,
                    resolved: None,
                };
                self.transactions.insert(key, state);
                self.next_key = key + 1;
                proof {
                    let m = old(self)@.received(packet@, simple_vote).0;
                    assert(state@ =~= packet_transaction(packet@, simple_vote).unwrap());
                    assert(self@.transactions =~= m.transactions);
                }
                Some(key)
            },
            None => None,
        }
    }

    /// Adds a transaction of the scheduler's own.
    pub fn insert_transaction(&mut self, packet: &[u8]) -> (r: Option<u64>)
        ensures
            (final(self)@, r) == old(self)@.inserted(packet@),
    {
        match self.receive_transaction(packet, false) {
            Some(key) => {
                self.push_action(Action::Insert { key, packet: vstd::slice::slice_to_vec(packet) });
                Some(key)
            },
            None => None,
        }
    }

    /// Releases a transaction.
    pub fn drop_transaction(&mut self, key: u64)
        ensures
            final(self)@ == old(self)@.dropped(key),
    {
        if self.transactions.contains_key(&key) {
            self.transactions.remove(&key);
            proof {
                assert(self@.transactions =~= old(self)@.transactions.remove(key));
            }
            self.push_action(Action::Drop { key });
        }
    }

    /// Releases some transactions.
    pub fn drop_transactions(&mut self, keys: &Vec<u64>)
        ensures
            final(self)@ == old(self)@.dropped_all(keys@),
    {
        let mut i: usize = 0;
        while i < keys.len()
            invariant
                0 <= i <= keys.len(),
                self@ == old(self)@.dropped_upto(keys@, i as int),
            decreases keys.len() - i,
        {
            self.drop_transaction(keys[i]);
            i = i + 1;
        }
    }

    /// Sends a message to a worker.
    pub fn schedule(&mut self, batch: ScheduleBatch)
        ensures
            final(self)@ == old(self)@.scheduled(batch@),
    {
        if batch.worker < self.workers.len() {
            let mut queue = self.workers[batch.worker];
            if queue.len < usize::MAX {
                queue.len = queue.len + 1;
            }
            self.workers.set(batch.worker, queue);
        }
        self.push_action(Action::Schedule { batch });
    }

    /// Notes the keys that a transaction's lookups resolved to, if any.
    pub fn resolve_keys(&mut self, key: u64, keys: Option<Vec<Pubkey>>)
        ensures
            final(self)@ == old(self)@.resolved(key, optional_seq(keys)),
    {
        match self.transactions.remove(&key) {
            Some(state) => {
                let mut state = state;
                state.resolved = keys;
                self.transactions.insert(key, state);
                proof {
                    assert(self@.transactions =~= old(self)@.resolved(key, optional_seq(keys)).transactions);
                }
            },
            None => {
                assert(self@.transactions =~= old(self)@.transactions);
            },
        }
    }

    /// The locks that a transaction needs.
    pub fn locks(&self, key: u64) -> (r: Vec<(Pubkey, bool)>)
        ensures
            r@ == self@.locks(key),
    {
        match self.transactions.get(&key) {
            Some(state) => state.locks(),
            None => {
                let none: Vec<(Pubkey, bool)> = Vec::new();
                assert(none@ =~= self@.locks(key));
                none
            },
        }
    }

    /// Reports an event, if events are wanted.
    pub fn report(&mut self, events: &Option<EventEmitter>, event: Event)
        ensures
            final(self)@ == old(self)@.reported(*events, event),
    {
        match events {
            Some(emitter) => {
                self.push_action(Action::Emit { event: emitter.emit(event) });
            },
            None => {},
        }
    }

    /// Reports an event about a transaction, if events are wanted and the
    /// transaction is not a simple vote.
    pub fn report_tx(
        &mut self,
        events: &Option<EventEmitter>,
        slot: u64,
        key: u64,
        priority: u64,
        action: TransactionAction,
    )
        ensures
            final(self)@ == old(self)@.reported_tx(*events, slot, key, priority, action),
    {
        let signature = match self.transactions.get(&key) {
            Some(state) => {
                if state.simple_vote {
                    return;
                }
                state.fields.signature
            },
            None => {
                return;
            },
        };
        self.report(
            events,
            Event::Transaction(TransactionEvent { signature, slot, priority, action }),
        );
    }
}

} // verus!
