//! What the schedulers report about slots and transactions.

use vstd::prelude::*;

use crate::pubkey::Signature;

verus! {

/// Where a transaction came from.
#[derive(Clone, Copy, Debug, PartialEq, Eq)]
pub enum TransactionSource {
    Tpu,
    Jito,
}

/// Which queue was full.
#[derive(Clone, Copy, Debug, PartialEq, Eq)]
pub enum EvictReason {
    UncheckedCapacity,
    CheckedCapacity,
}

/// Which check a transaction failed.
#[derive(Clone, Copy, Debug, PartialEq, Eq)]
pub enum CheckFailure {
    ParseOrSanitize,
    AccountResolution,
    StatusCheck,
}

/// What happened to a transaction.
#[allow(inconsistent_fields)]
#[derive(Clone, Copy, Debug, PartialEq, Eq)]
pub enum TransactionAction {
    /// Taken in; a bundle is named by the signature of its first transaction.
    Ingest { source: TransactionSource, bundle: Option<Signature> },
    Evict { reason: EvictReason },
    CheckOk,
    CheckErr { reason: CheckFailure },
    ExecuteReq,
    ExecuteUnprocessed,
    ExecuteOk,
    ExecuteErr { reason: u32 },
}

/// Something happened to a transaction.
#[derive(Clone, Copy, Debug, PartialEq, Eq)]
pub struct TransactionEvent {
    pub signature: Signature,
    pub slot: u64,
    pub priority: u64,
    pub action: TransactionAction,
}

/// Counts over one slot. Counters wrap around at 64 bits.
#[derive(Clone, Copy, Debug, PartialEq, Eq, Structural)]
pub struct SlotStatsEvent {
    pub was_leader_ready: bool,
    pub ingest_tpu_ok: u64,
    pub ingest_tpu_err: u64,
    pub ingest_tpu_evict: u64,
    pub ingest_tpu_filtered: u64,
    pub ingest_custom_ok: u64,
    pub ingest_custom_err: u64,
    pub ingest_custom_filtered: u64,
    pub check_requested: u64,
    pub check_ok: u64,
    pub check_err: u64,
    pub check_filtered: u64,
    pub check_evict: u64,
    pub execute_requested: u64,
    pub execute_ok: u64,
    pub execute_err: u64,
    pub execute_unprocessed: u64,
}

impl SlotStatsEvent {
    /// Nothing counted yet.
    pub open spec fn zero() -> SlotStatsEvent {
        SlotStatsEvent {
            was_leader_ready: false,
            ingest_tpu_ok: 0,
            ingest_tpu_err: 0,
            ingest_tpu_evict: 0,
            ingest_tpu_filtered: 0,
            ingest_custom_ok: 0,
            ingest_custom_err: 0,
            ingest_custom_filtered: 0,
            check_requested: 0,
            check_ok: 0,
            check_err: 0,
            check_filtered: 0,
            check_evict: 0,
            execute_requested: 0,
            execute_ok: 0,
            execute_err: 0,
            execute_unprocessed: 0,
        }
    }
}

impl Default for SlotStatsEvent {
    fn default() -> (r: Self)
        ensures
            r == SlotStatsEvent::zero(),
    {
        SlotStatsEvent {
            was_leader_ready: false,
            ingest_tpu_ok: 0,
            ingest_tpu_err: 0,
            ingest_tpu_evict: 0,
            ingest_tpu_filtered: 0,
            ingest_custom_ok: 0,
            ingest_custom_err: 0,
            ingest_custom_filtered: 0,
            check_requested: 0,
            check_ok: 0,
            check_err: 0,
            check_filtered: 0,
            check_evict: 0,
            execute_requested: 0,
            execute_ok: 0,
            execute_err: 0,
            execute_unprocessed: 0,
        }
    }
}

/// What is reported.
#[derive(Clone, Copy, Debug, PartialEq, Eq)]
pub enum Event {
    /// A new slot began.
    SlotStart,
    /// The counts of the slot that ended.
    SlotStats(SlotStatsEvent),
    /// The validator became leader.
    LeaderReady,
    /// Something happened to a transaction.
    Transaction(TransactionEvent),
}

/// An event and the slot it was reported in.
#[derive(Clone, Copy, Debug, PartialEq, Eq)]
pub struct StampedEvent {
    pub slot: u64,
    pub event: Event,
}

/// The slot that events are reported in.
#[derive(Clone, Copy, Debug, PartialEq, Eq, Structural)]
pub struct EventContext {
    pub slot: u64,
}

impl EventContext {
    /// Before the first slot.
    #[must_use]
    pub fn new() -> (r: Self)
        ensures
            r.slot == 0,
    {
        EventContext { slot: 0 }
    }

    /// Moves on to another slot.
    pub fn set(&mut self, slot: u64)
        ensures
            final(self).slot == slot,
    {
        self.slot = slot;
    }
}

/// Stamps events with the slot they are reported in.
#[derive(Clone, Copy, Debug, PartialEq, Eq, Structural)]
pub struct EventEmitter {
    pub ctx: EventContext,
}

impl EventEmitter {
    /// An emitter that starts in a context.
    pub fn new(ctx: EventContext) -> (r: Self)
        ensures
            r.ctx == ctx,
    {
        EventEmitter { ctx }
    }

    /// The context.
    #[must_use]
    pub fn ctx(&self) -> (r: &EventContext)
        ensures
            *r == self.ctx,
    {
        &self.ctx
    }

    /// An event with its slot.
    pub fn emit(&self, event: Event) -> (r: StampedEvent)
        ensures
            r == (StampedEvent { slot: self.ctx.slot, event }),
    {
        StampedEvent { slot: self.ctx.slot, event }
    }
}

} // verus!
