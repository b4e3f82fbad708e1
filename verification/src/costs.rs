//! What a transaction costs the block, and what it pays its leader.

use vstd::prelude::*;
use agave_feature_set::FeatureSet;
use agave_transaction_view::transaction_view::SanitizedTransactionView;
use solana_compute_budget_instruction::compute_budget_instruction_details::ComputeBudgetInstructionDetails;
use solana_cost_model::cost_model::CostModel;
use solana_fee::FeeFeatures;
use solana_runtime_transaction::runtime_transaction::RuntimeTransaction;
use solana_runtime_transaction::sanitize_config::sanitize_config;
use solana_transaction::sanitized::MessageHash;

use crate::shared::{BUNDLE_MARKER, PRIORITY_MULTIPLIER};

verus! {

/// The feature set of `agave_feature_set`.
#[verifier::external_type_specification]
#[verifier::external_body]
pub struct ExFeatureSet(agave_feature_set::FeatureSet);

/// The active features of a feature set, each with its slot of activation.
pub uninterp spec fn active_features(features: FeatureSet) -> Map<Seq<u8>, u64>;

/// The compute unit price and limit that the compute budget instructions of
/// the transaction in a packet ask for, if there is a valid request.
pub uninterp spec fn budget_request(packet: Seq<u8>, features: Map<Seq<u8>, u64>) -> Option<
    (u64, u32),
>;

/// The cost units that the transaction in a packet takes of a block.
pub uninterp spec fn block_cost(packet: Seq<u8>, features: Map<Seq<u8>, u64>) -> Option<u64>;

/// The fee for the signatures of the transaction in a packet.
pub uninterp spec fn signature_fee(packet: Seq<u8>, lamports_per_signature: u64) -> Option<u64>;

/// `ComputeBudgetInstructionDetails::try_from` on the instructions of the
/// packet's transaction, then `sanitize_and_convert_to_compute_budget_limits`:
/// the outcome is a function of the packet and of the active features.
#[verifier::external_body]
pub(crate) fn read_budget_request(packet: &[u8], features: &FeatureSet) -> (r: Option<(u64, u32)>)
    ensures
        r == budget_request(packet@, active_features(*features)),
{
    let view = SanitizedTransactionView::try_new_sanitized(packet, &sanitize_config(true)).ok()?;
    let tx = RuntimeTransaction::<&SanitizedTransactionView<&[u8]>>::try_new(&view, MessageHash::Compute, None).ok()?;
    let details = ComputeBudgetInstructionDetails::try_from(tx.program_instructions_iter()).ok()?;
    let limits = details.sanitize_and_convert_to_compute_budget_limits(features).ok()?;
    Some((limits.compute_unit_price, limits.compute_unit_limit))
}

/// `CostModel::calculate_cost` on the packet's transaction, then
/// `TransactionCost::sum`: the cost is a function of the packet and of the
/// active features.
#[verifier::external_body]
pub(crate) fn read_block_cost(packet: &[u8], features: &FeatureSet) -> (r: Option<u64>)
    ensures
        r == block_cost(packet@, active_features(*features)),
{
    let view = SanitizedTransactionView::try_new_sanitized(packet, &sanitize_config(true)).ok()?;
    let tx = RuntimeTransaction::<&SanitizedTransactionView<&[u8]>>::try_new(&view, MessageHash::Compute, None).ok()?;
    Some(CostModel::calculate_cost(&tx, features).sum())
}

/// `solana_fee::calculate_fee_details` on the packet's transaction: the first
/// part is a function of the packet and of the price of a signature, the second
/// is the prioritization fee that was handed in.
#[verifier::external_body]
pub(crate) fn read_fee_details(
    packet: &[u8],
    lamports_per_signature: u64,
    prioritization_fee: u64,
) -> (r: Option<(u64, u64)>)
    ensures
        match r {
            Some(fees) => signature_fee(packet@, lamports_per_signature) == Some(fees.0) && fees.1
                == prioritization_fee,
            None => signature_fee(packet@, lamports_per_signature) is None,
        },
{
    let view = SanitizedTransactionView::try_new_sanitized(packet, &sanitize_config(true)).ok()?;
    let tx = RuntimeTransaction::<&SanitizedTransactionView<&[u8]>>::try_new(&view, MessageHash::Compute, None).ok()?;
    let fees = solana_fee::calculate_fee_details(&tx, lamports_per_signature, prioritization_fee, FeeFeatures {});
    Some((fees.transaction_fee(), fees.prioritization_fee()))
}

/// The runtime parameters that costs and fees depend on.
pub struct RuntimeState {
    pub feature_set: FeatureSet,
    pub lamports_per_signature: u64,
    /// The share of the signature fee that is burnt, in percent.
    pub burn_percent: u64,
}

/// What the runtime parameters hold.
#[verifier::ext_equal]
pub struct RuntimeModel {
    pub features: Map<Seq<u8>, u64>,
    pub lamports_per_signature: u64,
    pub burn_percent: u64,
}

impl View for RuntimeState {
    type V = RuntimeModel;

    open spec fn view(&self) -> RuntimeModel {
        RuntimeModel {
            features: active_features(self.feature_set),
            lamports_per_signature: self.lamports_per_signature,
            burn_percent: self.burn_percent,
        }
    }
}

/// An integer capped at 64 bits.
pub open spec fn capped(v: int) -> u64 {
    if v > u64::MAX {
        u64::MAX
    } else {
        v as u64
    }
}

/// The product of two integers, capped at 64 bits.
pub fn capped_mul(a: u64, b: u64) -> (r: u64)
    ensures
        r == capped(a * b),
{
    match a.checked_mul(b) {
        Some(product) => product,
        None => u64::MAX,
    }
}

/// The prioritization fee, in lamports: the price in millionths of a lamport
/// times the limit, rounded up.
pub open spec fn prioritization_fee_of(price: u64, limit: u32) -> u64 {
    capped((price * limit + 999_999) / 1_000_000)
}

/// The prioritization fee, in lamports: the price in millionths of a lamport
/// times the limit, rounded up.
pub fn prioritization_fee(price: u64, limit: u32) -> (fee: u64)
    ensures
        fee == prioritization_fee_of(price, limit),
{
    assert(0 <= price * limit <= 0xffff_ffff_ffff_ffff * 0xffff_ffff) by (nonlinear_arith)
        requires
            0 <= price <= 0xffff_ffff_ffff_ffff,
            0 <= limit <= 0xffff_ffff,
    ;
    let micro: u128 = price as u128 * limit as u128;
    let fee: u128 = (micro + 999_999) / 1_000_000;
    if fee > 0xffff_ffff_ffff_ffff {
        u64::MAX
    } else {
        fee as u64
    }
}

/// What the leader keeps of the fees: the part of the signature fee that is
/// not burnt, and the prioritization fee. Nothing if the burnt part overflows or
/// exceeds the fee.
pub open spec fn leader_reward(transaction_fee: u64, prioritization_fee: u64, burn_percent: u64) -> Option<
    u64,
> {
    if transaction_fee * burn_percent > u64::MAX || (transaction_fee * burn_percent) / 100
        > transaction_fee {
        None
    } else {
        Some(
            capped(
                transaction_fee - (transaction_fee * burn_percent) / 100 + prioritization_fee,
            ),
        )
    }
}

/// A share of at most the whole fee leaves something to keep, unless the burnt
/// part overflows.
pub proof fn lemma_reward_owed(transaction_fee: u64, prioritization_fee: u64, burn_percent: u64)
    requires
        burn_percent <= 100,
        transaction_fee * burn_percent <= u64::MAX,
    ensures
        leader_reward(transaction_fee, prioritization_fee, burn_percent) is Some,
        leader_reward(transaction_fee, prioritization_fee, burn_percent)->0 >= prioritization_fee,
{
    assert((transaction_fee * burn_percent) / 100 <= transaction_fee) by (nonlinear_arith)
        requires
            burn_percent <= 100,
    ;
}

/// What the leader keeps of the fees.
pub fn reward_from_fees(transaction_fee: u64, prioritization_fee: u64, burn_percent: u64) -> (r:
    Option<u64>)
    ensures
        r == leader_reward(transaction_fee, prioritization_fee, burn_percent),
{
    match transaction_fee.checked_mul(burn_percent) {
        Some(product) => {
            let burn: u64 = product / 100;
            match transaction_fee.checked_sub(burn) {
                Some(base_fee) => Some(base_fee.saturating_add(prioritization_fee)),
                None => None,
            }
        },
        None => None,
    }
}

/// The cost of the transaction in a packet and the reward for it.
pub open spec fn cost_and_reward(runtime: RuntimeModel, packet: Seq<u8>) -> Option<(u64, u64)> {
    match (
        budget_request(packet, runtime.features),
        block_cost(packet, runtime.features),
        signature_fee(packet, runtime.lamports_per_signature),
    ) {
        (Some(request), Some(cost), Some(fee)) => match leader_reward(
            fee,
            prioritization_fee_of(request.0, request.1),
            runtime.burn_percent,
        ) {
            Some(reward) => Some((cost, reward)),
            None => None,
        },
        _ => None,
    }
}

/// The cost of the transaction in a packet and the reward for it, unless the
/// packet or its compute budget is malformed.
pub fn calculate_cost_and_reward(runtime: &RuntimeState, packet: &[u8]) -> (r: Option<(u64, u64)>)
    ensures
        r == cost_and_reward(runtime@, packet@),
{
    let request = match read_budget_request(packet, &runtime.feature_set) {
        Some(request) => request,
        None => {
            return None;
        },
    };
    let cost: u64 = match read_block_cost(packet, &runtime.feature_set) {
        Some(cost) => cost,
        None => {
            return None;
        },
    };
    let fees = match read_fee_details(
        packet,
        runtime.lamports_per_signature,
        prioritization_fee(request.0, request.1),
    ) {
        Some(fees) => fees,
        None => {
            return None;
        },
    };
    match reward_from_fees(fees.0, fees.1, runtime.burn_percent) {
        Some(reward) => Some((cost, reward)),
        None => None,
    }
}

/// The priority of a transaction: millionths of reward per cost unit, kept
/// below the bundle marker.
pub open spec fn priority_of(cost: u64, reward: u64) -> u64 {
    let ratio = capped(reward * PRIORITY_MULTIPLIER) / capped(cost + 1);
    if ratio < BUNDLE_MARKER {
        ratio
    } else {
        (BUNDLE_MARKER - 1) as u64
    }
}

/// The priority of a transaction: millionths of reward per cost unit, kept
/// below the bundle marker.
pub fn transaction_priority(cost: u64, reward: u64) -> (priority: u64)
    ensures
        priority == priority_of(cost, reward),
        priority < BUNDLE_MARKER,
{
    let scaled: u64 = capped_mul(reward, PRIORITY_MULTIPLIER);
    let divisor: u64 = cost.saturating_add(1);
    let ratio: u64 = scaled / divisor;
    if ratio < BUNDLE_MARKER {
        ratio
    } else {
        BUNDLE_MARKER - 1
    }
}

/// The priority and the cost of the transaction in a packet.
pub open spec fn priority_and_cost(runtime: RuntimeModel, packet: Seq<u8>) -> Option<(u64, u64)> {
    match cost_and_reward(runtime, packet) {
        Some((cost, reward)) => Some((priority_of(cost, reward), cost)),
        None => None,
    }
}

/// The priority and the cost of the transaction in a packet, unless the packet
/// or its compute budget is malformed.
pub fn calculate_priority(runtime: &RuntimeState, packet: &[u8]) -> (r: Option<(u64, u64)>)
    ensures
        r == priority_and_cost(runtime@, packet@),
{
    match calculate_cost_and_reward(runtime, packet) {
        Some((cost, reward)) => Some((transaction_priority(cost, reward), cost)),
        None => None,
    }
}

/// The priority of a bundle: millionths of reward per cost unit, a free bundle
/// counting as one unit.
pub open spec fn bundle_priority_of(total_cost: u64, total_reward: u64) -> u64 {
    capped(total_reward * PRIORITY_MULTIPLIER) / (if total_cost == 0 { 1u64 } else { total_cost })
}

/// The priority of a bundle.
pub fn bundle_priority(total_cost: u64, total_reward: u64) -> (priority: u64)
    ensures
        priority == bundle_priority_of(total_cost, total_reward),
{
    let divisor: u64 = if total_cost == 0 { 1 } else { total_cost };
    capped_mul(total_reward, PRIORITY_MULTIPLIER) / divisor
}

/// No transaction has the priority that marks a bundle.
pub proof fn lemma_priority_below_marker(cost: u64, reward: u64)
    ensures
        priority_of(cost, reward) < BUNDLE_MARKER,
{
}

/// At equal cost, a higher reward never gives a lower priority.
pub proof fn lemma_priority_monotone(cost: u64, reward: u64, more: u64)
    requires
        reward <= more,
    ensures
        priority_of(cost, reward) <= priority_of(cost, more),
{
    let a = capped(reward * PRIORITY_MULTIPLIER);
    let b = capped(more * PRIORITY_MULTIPLIER);
    let d = capped(cost + 1);
    assert(a <= b);
    assert(a / d <= b / d) by (nonlinear_arith)
        requires
            a <= b,
            d > 0,
    ;
}

} // verus!
