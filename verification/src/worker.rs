//! What workers answer, and how the answers are read.

use vstd::prelude::*;

use crate::bridge::ProgressMessage;
use crate::events::CheckFailure;
use crate::jito::{JitoUpdate, UpdateModel};
use crate::pubkey::Pubkey;
use crate::shared::PriorityId;
use crate::transaction::optional_seq;

verus! {

/// Cost units that a block can hold.
pub const MAX_BLOCK_UNITS: u64 = 60_000_000;

/// Transactions that a round takes in while the validator leads.
pub const LEADER_TPU_LIMIT: usize = 128;

/// Transactions that a round takes in otherwise.
pub const TPU_LIMIT: usize = 1024;

/// How many transactions a round takes in at most.
pub open spec fn round_limit(is_leader: bool) -> int {
    if is_leader {
        LEADER_TPU_LIMIT as int
    } else {
        TPU_LIMIT as int
    }
}

/// How many transactions a round takes in at most.
pub fn tpu_limit(is_leader: bool) -> (limit: usize)
    ensures
        limit == round_limit(is_leader),
{
    if is_leader {
        LEADER_TPU_LIMIT
    } else {
        TPU_LIMIT
    }
}

/// The answer to a check.
#[derive(Clone, Copy, Debug, PartialEq, Eq, Structural)]
pub struct CheckResponse {
    pub parsing_and_sanitization_flags: u8,
    pub status_check_flags: u8,
    pub fee_payer_balance_flags: u8,
    pub resolve_flags: u8,
}

/// The answer to an execution.
#[derive(Clone, Copy, Debug, PartialEq, Eq, Structural)]
pub struct ExecutionResponse {
    pub execution_slot: u64,
    pub not_included_reason: u8,
}

/// What a worker did with a transaction.
#[derive(Debug)]
pub enum WorkerAction {
    /// Nothing: the message came too late.
    Unprocessed,
    /// Checked it; the keys that its lookups resolved to, if it has lookups.
    Check(CheckResponse, Option<Vec<Pubkey>>),
    /// Executed it, or tried to.
    Execute(ExecutionResponse),
}

/// The answer about one transaction.
#[derive(Debug)]
pub struct WorkerResponse {
    pub meta: PriorityId,
    pub response: WorkerAction,
}

/// What a worker did with a transaction.
pub enum ResponseModel {
    Unprocessed,
    Check(CheckResponse, Option<Seq<Pubkey>>),
    Execute(ExecutionResponse),
}

impl View for WorkerAction {
    type V = ResponseModel;

    open spec fn view(&self) -> ResponseModel {
        match self {
            WorkerAction::Unprocessed => ResponseModel::Unprocessed,
            WorkerAction::Check(rep, resolved_keys) => ResponseModel::Check(
                *rep,
                optional_seq(*resolved_keys),
            ),
            WorkerAction::Execute(rep) => ResponseModel::Execute(*rep),
        }
    }
}

impl View for WorkerResponse {
    type V = (PriorityId, ResponseModel);

    open spec fn view(&self) -> (PriorityId, ResponseModel) {
        (self.meta, self.response@)
    }
}

/// A transaction that the validator forwards.
#[derive(Debug)]
pub struct TpuPacket {
    pub packet: Vec<u8>,
    pub simple_vote: bool,
}

impl View for TpuPacket {
    type V = (Seq<u8>, bool);

    open spec fn view(&self) -> (Seq<u8>, bool) {
        (self.packet@, self.simple_vote)
    }
}

/// What arrived since the last round.
#[derive(Debug)]
pub struct PollInput {
    /// Where the validator stands, if it said so.
    pub progress: Option<ProgressMessage>,
    /// The time, in nanoseconds.
    pub now: u64,
    pub responses: Vec<WorkerResponse>,
    /// The transactions that wait; a round takes in only the first of them.
    pub tpu: Vec<TpuPacket>,
    pub updates: Vec<JitoUpdate>,
}

/// Why a round cannot be run.
#[derive(Clone, Copy, Debug, PartialEq, Eq, Structural)]
pub enum PollError {
    /// The validator's slot is too high to count on from it.
    SlotTooHigh,
    /// The share of the block that may be filled is no percentage.
    FillTooHigh,
    /// The validator has been silent for too long.
    Disconnected,
    /// A worker's answer makes no sense.
    Answer,
}

/// What arrived since the last round.
#[verifier::ext_equal]
pub struct PollModel {
    pub progress: Option<ProgressMessage>,
    pub now: u64,
    pub responses: Seq<(PriorityId, ResponseModel)>,
    pub tpu: Seq<(Seq<u8>, bool)>,
    pub updates: Seq<UpdateModel>,
}

impl View for PollInput {
    type V = PollModel;

    open spec fn view(&self) -> PollModel {
        PollModel {
            progress: self.progress,
            now: self.now,
            responses: self.responses@.map_values(|r: WorkerResponse| r@),
            tpu: self.tpu@.map_values(|t: TpuPacket| t@),
            updates: self.updates@.map_values(|u: JitoUpdate| u@),
        }
    }
}

impl CheckResponse {
    /// Whether the transaction could not be parsed or sanitized.
    pub open spec fn parsing_failed(self) -> bool {
        self.parsing_and_sanitization_flags & 1u8 != 0
    }

    /// Whether its lookups could not be resolved.
    pub open spec fn resolve_failed(self) -> bool {
        self.resolve_flags & 4u8 != 0
    }

    /// Whether its status check reported more than that it was requested and
    /// performed.
    pub open spec fn status_failed(self) -> bool {
        self.status_check_flags & !3u8 != 0
    }

    /// The check that failed, if one did.
    pub open spec fn failure(self) -> Option<CheckFailure> {
        if self.parsing_failed() {
            Some(CheckFailure::ParseOrSanitize)
        } else if self.resolve_failed() {
            Some(CheckFailure::AccountResolution)
        } else if self.status_failed() {
            Some(CheckFailure::StatusCheck)
        } else {
            None
        }
    }

    /// At most one check failed; and if none did, all were requested and
    /// performed.
    pub open spec fn consistent(self) -> bool {
        &&& !(self.parsing_failed() && self.resolve_failed())
        &&& !(self.parsing_failed() && self.status_failed())
        &&& !(self.resolve_failed() && self.status_failed())
        &&& self.failure() is None ==> {
            &&& self.fee_payer_balance_flags == 3
            &&& self.resolve_flags == 3
            &&& self.status_check_flags & 1u8 != 0
            &&& self.status_check_flags & 2u8 != 0
        }
    }

    /// The check that failed, if one did.
    pub fn failed_check(&self) -> (r: Option<CheckFailure>)
        ensures
            r == self.failure(),
    {
        if self.parsing_and_sanitization_flags & 1u8 != 0 {
            Some(CheckFailure::ParseOrSanitize)
        } else if self.resolve_flags & 4u8 != 0 {
            Some(CheckFailure::AccountResolution)
        } else if self.status_check_flags & !3u8 != 0 {
            Some(CheckFailure::StatusCheck)
        } else {
            None
        }
    }

    /// Whether at most one check failed; and if none did, all were requested
    /// and performed.
    pub fn is_consistent(&self) -> (r: bool)
        ensures
            r == self.consistent(),
    {
        let parsing: bool = self.parsing_and_sanitization_flags & 1u8 != 0;
        let resolve: bool = self.resolve_flags & 4u8 != 0;
        let status: bool = self.status_check_flags & !3u8 != 0;
        if (parsing && resolve) || (parsing && status) || (resolve && status) {
            return false;
        }
        parsing || resolve || status || (self.fee_payer_balance_flags == 3 && self.resolve_flags
            == 3 && self.status_check_flags & 1u8 != 0 && self.status_check_flags & 2u8 != 0)
    }
}

/// A transaction that was included.
pub const NOT_INCLUDED_NONE: u8 = 0;

/// There was no bank to execute it in.
pub const BANK_NOT_AVAILABLE: u8 = 1;

/// One of its accounts was locked.
pub const ACCOUNT_IN_USE: u8 = 64;

/// The block had no cost units left.
pub const WOULD_EXCEED_MAX_BLOCK_COST_LIMIT: u8 = 81;

/// One of its accounts had no cost units left in the block.
pub const WOULD_EXCEED_MAX_ACCOUNT_COST_LIMIT: u8 = 84;

/// The block had no account data left.
pub const WOULD_EXCEED_ACCOUNT_DATA_BLOCK_LIMIT: u8 = 85;

/// The block had no vote cost units left.
pub const WOULD_EXCEED_MAX_VOTE_COST_LIMIT: u8 = 92;

/// There was no account data left at all.
pub const WOULD_EXCEED_ACCOUNT_DATA_TOTAL_LIMIT: u8 = 93;

/// The reasons for which a transaction may succeed later.
pub open spec fn retryable(reason: u8) -> bool {
    ||| reason == ACCOUNT_IN_USE
    ||| reason == BANK_NOT_AVAILABLE
    ||| reason == WOULD_EXCEED_MAX_BLOCK_COST_LIMIT
    ||| reason == WOULD_EXCEED_MAX_ACCOUNT_COST_LIMIT
    ||| reason == WOULD_EXCEED_ACCOUNT_DATA_BLOCK_LIMIT
    ||| reason == WOULD_EXCEED_MAX_VOTE_COST_LIMIT
    ||| reason == WOULD_EXCEED_ACCOUNT_DATA_TOTAL_LIMIT
}

/// Whether a transaction that was not included for a reason may succeed later.
pub fn is_retryable(reason: u8) -> (r: bool)
    ensures
        r == retryable(reason),
{
    reason == ACCOUNT_IN_USE || reason == BANK_NOT_AVAILABLE || reason
        == WOULD_EXCEED_MAX_BLOCK_COST_LIMIT || reason == WOULD_EXCEED_MAX_ACCOUNT_COST_LIMIT
        || reason == WOULD_EXCEED_ACCOUNT_DATA_BLOCK_LIMIT || reason
        == WOULD_EXCEED_MAX_VOTE_COST_LIMIT || reason == WOULD_EXCEED_ACCOUNT_DATA_TOTAL_LIMIT
}

/// `a - b`, but not below zero.
pub open spec fn floored(a: int, b: int) -> int {
    if a > b {
        a - b
    } else {
        0
    }
}

/// How much of the block may be filled by now, in percent.
pub open spec fn fill_percentage(progress: ProgressMessage, block_fill_cutoff: u8) -> int {
    if progress.current_slot_progress + block_fill_cutoff < 100 {
        progress.current_slot_progress + block_fill_cutoff
    } else {
        100
    }
}

/// The cost units that may still be scheduled: those the block may hold by now,
/// without those used and those in flight.
pub open spec fn budget_of(progress: ProgressMessage, block_fill_cutoff: u8, in_flight: u64) -> int {
    floored(
        MAX_BLOCK_UNITS * fill_percentage(progress, block_fill_cutoff) / 100,
        floored(MAX_BLOCK_UNITS as int, progress.remaining_cost_units as int) + in_flight,
    )
}

/// The cost units that may still be scheduled.
pub fn block_budget(progress: &ProgressMessage, block_fill_cutoff: u8, in_flight: u64) -> (budget:
    u64)
    requires
        progress.current_slot_progress + block_fill_cutoff <= u8::MAX,
        in_flight <= u64::MAX - MAX_BLOCK_UNITS,
    ensures
        budget == budget_of(*progress, block_fill_cutoff, in_flight),
        budget > 0 ==> in_flight + budget <= MAX_BLOCK_UNITS,
{
    let sum: u8 = progress.current_slot_progress + block_fill_cutoff;
    let percentage: u64 = if sum < 100 { sum as u64 } else { 100 };
    let limit: u64 = MAX_BLOCK_UNITS * percentage / 100;
    let used: u64 = MAX_BLOCK_UNITS.saturating_sub(progress.remaining_cost_units) + in_flight;
    limit.saturating_sub(used)
}

/// No more is scheduled than the block can hold beside what is in flight.
pub proof fn lemma_budget_bound(progress: ProgressMessage, block_fill_cutoff: u8, in_flight: u64)
    requires
        in_flight <= MAX_BLOCK_UNITS,
    ensures
        0 <= budget_of(progress, block_fill_cutoff, in_flight),
        in_flight + budget_of(progress, block_fill_cutoff, in_flight) <= MAX_BLOCK_UNITS,
        budget_of(progress, block_fill_cutoff, in_flight) <= progress.remaining_cost_units,
{
}

/// The budget never shrinks as the slot goes on.
pub proof fn lemma_budget_grows_with_slot(
    early: ProgressMessage,
    late: ProgressMessage,
    block_fill_cutoff: u8,
    in_flight: u64,
)
    requires
        early.current_slot_progress <= late.current_slot_progress,
        early.remaining_cost_units == late.remaining_cost_units,
    ensures
        budget_of(early, block_fill_cutoff, in_flight) <= budget_of(
            late,
            block_fill_cutoff,
            in_flight,
        ),
{
}

} // verus!
