//! Tighter-batch composite scoring for transaction packing.
//!
//! Computes a "value score" that balances short-term fee revenue with
//! long-term block-packing efficiency:
//!
//! ```text
//! score = compute_unit_price * weight_fee
//!       + (1_000_000 / cu_limit) * weight_efficiency
//! ```
//!
//! - `compute_unit_price` is the prioritization fee per compute unit.
//! - `1_000_000 / cu_limit` rewards transactions that request fewer units; a
//!   limit of zero earns no bonus.
//! - Sums and products stop at the largest 64-bit integer.

use vstd::prelude::*;
use agave_feature_set::FeatureSet;

use crate::costs::{
    active_features, block_cost, budget_request, capped, capped_mul, prioritization_fee, prioritization_fee_of,
    read_block_cost, read_budget_request,
};

verus! {

/// Configuration for the tighter-batch composite scoring strategy.
#[derive(Debug, Clone, Copy, PartialEq, Eq, Structural)]
pub struct TighterBatchConfig {
    /// Weight applied to `compute_unit_price` (fee density). Defaults to 1.
    pub weight_fee: u64,
    /// Weight applied to compute-unit efficiency. Defaults to 1.
    pub weight_efficiency: u64,
    /// Minimum score: transactions below it are dropped. Defaults to 0.
    pub min_score: u64,
}

/// The default weight of the fee density.
pub fn default_weight_fee() -> (r: u64)
    ensures
        r == 1,
{
    1
}

/// The default weight of the efficiency bonus.
pub fn default_weight_efficiency() -> (r: u64)
    ensures
        r == 1,
{
    1
}

/// The default minimum score.
pub fn default_min_score() -> (r: u64)
    ensures
        r == 0,
{
    0
}

impl Default for TighterBatchConfig {
    fn default() -> (r: Self)
        ensures
            r.weight_fee == 1,
            r.weight_efficiency == 1,
            r.min_score == 0,
    {
        TighterBatchConfig {
            weight_fee: default_weight_fee(),
            weight_efficiency: default_weight_efficiency(),
            min_score: default_min_score(),
        }
    }
}

/// Cost data extracted from a transaction.
#[derive(Debug, Clone, Copy, PartialEq, Eq, Structural)]
pub struct TxCosts {
    /// Prioritization fee in lamports.
    pub prioritization_fee: u64,
    /// Compute unit limit requested by the transaction.
    pub compute_unit_limit: u64,
    /// Total cost in block cost units.
    pub total_cost: u64,
}

impl TxCosts {
    /// The prioritization fee per compute unit.
    pub open spec fn unit_price(self) -> u64 {
        self.prioritization_fee / capped(self.compute_unit_limit + 1)
    }

    /// The prioritization fee per compute unit.
    pub fn compute_unit_price(&self) -> (price: u64)
        ensures
            price == self.unit_price(),
    {
        let divisor: u64 = self.compute_unit_limit.saturating_add(1);
        self.prioritization_fee / divisor
    }
}

/// The cost data of the transaction in a packet.
pub open spec fn costs_of(packet: Seq<u8>, features: Map<Seq<u8>, u64>) -> Option<TxCosts> {
    match (budget_request(packet, features), block_cost(packet, features)) {
        (Some(request), Some(cost)) => Some(
            TxCosts {
                prioritization_fee: prioritization_fee_of(request.0, request.1),
                compute_unit_limit: request.1 as u64,
                total_cost: cost,
            },
        ),
        _ => None,
    }
}

/// Cost data from a budget request and a block cost.
pub fn costs_from(request: (u64, u32), total_cost: u64) -> (r: TxCosts)
    ensures
        r.prioritization_fee == prioritization_fee_of(request.0, request.1),
        r.compute_unit_limit == request.1,
        r.total_cost == total_cost,
{
    TxCosts {
        prioritization_fee: prioritization_fee(request.0, request.1),
        compute_unit_limit: request.1 as u64,
        total_cost,
    }
}

/// The cost data of the transaction in a packet.
///
/// Returns `None` if the transaction cannot be parsed or its compute budget is
/// invalid.
pub fn derive_costs(packet: &[u8], feature_set: &FeatureSet) -> (r: Option<TxCosts>)
    ensures
        r == costs_of(packet@, active_features(*feature_set)),
{
    match (read_budget_request(packet, feature_set), read_block_cost(packet, feature_set)) {
        (Some(request), Some(cost)) => Some(costs_from(request, cost)),
        _ => None,
    }
}

/// The bonus for a tight compute unit limit, before its weight.
pub open spec fn efficiency(compute_unit_limit: u64) -> u64 {
    if compute_unit_limit == 0 {
        0
    } else {
        1_000_000u64 / compute_unit_limit
    }
}

/// The composite score.
pub open spec fn score_of(costs: TxCosts, config: TighterBatchConfig) -> u64 {
    capped(
        capped(costs.unit_price() * config.weight_fee) + capped(
            efficiency(costs.compute_unit_limit) * config.weight_efficiency,
        ),
    )
}

/// Computes the tighter-batch composite score of a transaction.
pub fn tighter_batch_score(costs: &TxCosts, config: &TighterBatchConfig) -> (score: u64)
    ensures
        score == score_of(*costs, *config),
{
    let cu_price: u64 = costs.compute_unit_price();
    let fee_component: u64 = capped_mul(cu_price, config.weight_fee);
    // Prefer transactions with tighter compute unit estimates.
    let bonus: u64 = match 1_000_000u64.checked_div(costs.compute_unit_limit) {
        Some(bonus) => bonus,
        None => 0,
    };
    let efficiency_bonus: u64 = capped_mul(bonus, config.weight_efficiency);
    fee_component.saturating_add(efficiency_bonus)
}

/// Scale of the score in a priority.
pub const PRIORITY_MULTIPLIER: u64 = 1_000_000;

/// The priority that marks a bundle.
pub const BUNDLE_MARKER: u64 = u64::MAX;

/// The scaled score, kept below the bundle marker.
pub open spec fn scaled_score(score: u64) -> u64 {
    if score * PRIORITY_MULTIPLIER < BUNDLE_MARKER {
        (score * PRIORITY_MULTIPLIER) as u64
    } else {
        (BUNDLE_MARKER - 1) as u64
    }
}

/// Computes priority and cost with the tighter-batch scoring formula.
///
/// The priority is the score scaled by `PRIORITY_MULTIPLIER` and capped below
/// `BUNDLE_MARKER`. Transactions that score below the minimum have none.
pub fn tighter_batch_priority(costs: &TxCosts, config: &TighterBatchConfig) -> (r: Option<
    (u64, u64),
>)
    ensures
        r == (if score_of(*costs, *config) < config.min_score {
            None
        } else {
            Some((scaled_score(score_of(*costs, *config)), costs.total_cost))
        }),
{
    let score: u64 = tighter_batch_score(costs, config);
    if score < config.min_score {
        return None;
    }
    let scaled: u64 = capped_mul(score, PRIORITY_MULTIPLIER);
    let priority: u64 = if scaled < BUNDLE_MARKER - 1 { scaled } else { BUNDLE_MARKER - 1 };
    Some((priority, costs.total_cost))
}

/// A scaled score never marks a bundle.
pub proof fn lemma_scaled_score_below_marker(score: u64)
    ensures
        scaled_score(score) < BUNDLE_MARKER,
{
}

/// A higher score never has a lower priority.
pub proof fn lemma_scaled_score_monotone(score: u64, more: u64)
    requires
        score <= more,
    ensures
        scaled_score(score) <= scaled_score(more),
{
}

/// With the same weights, a transaction with a tighter compute unit limit and a
/// fee that is no lower never scores lower.
pub proof fn lemma_tighter_scores_higher(tight: TxCosts, loose: TxCosts, config: TighterBatchConfig)
    requires
        0 < tight.compute_unit_limit <= loose.compute_unit_limit,
        tight.prioritization_fee >= loose.prioritization_fee,
    ensures
        score_of(tight, config) >= score_of(loose, config),
{
    let narrow = capped(tight.compute_unit_limit + 1);
    let wide = capped(loose.compute_unit_limit + 1);
    assert(tight.prioritization_fee / narrow >= loose.prioritization_fee / narrow)
        by (nonlinear_arith)
        requires
            narrow > 0,
            tight.prioritization_fee >= loose.prioritization_fee,
    ;
    assert(loose.prioritization_fee / narrow >= loose.prioritization_fee / wide)
        by (nonlinear_arith)
        requires
            0 < narrow <= wide,
    ;
    lemma_dearer_unit_scores_higher(tight, loose, config);
}

/// With the same weights, a transaction with a tighter compute unit limit and a
/// price per unit that is no lower never scores lower.
pub proof fn lemma_dearer_unit_scores_higher(
    tight: TxCosts,
    loose: TxCosts,
    config: TighterBatchConfig,
)
    requires
        0 < tight.compute_unit_limit <= loose.compute_unit_limit,
        tight.unit_price() >= loose.unit_price(),
    ensures
        score_of(tight, config) >= score_of(loose, config),
{
    assert(tight.unit_price() * config.weight_fee >= loose.unit_price() * config.weight_fee)
        by (nonlinear_arith)
        requires
            tight.unit_price() >= loose.unit_price(),
    ;
    let a = efficiency(tight.compute_unit_limit);
    let b = efficiency(loose.compute_unit_limit);
    assert(a >= b) by (nonlinear_arith)
        requires
            a == 1_000_000u64 / tight.compute_unit_limit,
            b == 1_000_000u64 / loose.compute_unit_limit,
            0 < tight.compute_unit_limit <= loose.compute_unit_limit,
    ;
    assert(a * config.weight_efficiency >= b * config.weight_efficiency) by (nonlinear_arith)
        requires
            a >= b,
    ;
}

/// With the same compute unit limit, a higher fee never scores lower.
pub proof fn lemma_higher_fee_scores_higher(rich: TxCosts, poor: TxCosts, config: TighterBatchConfig)
    requires
        rich.compute_unit_limit == poor.compute_unit_limit,
        rich.prioritization_fee >= poor.prioritization_fee,
    ensures
        score_of(rich, config) >= score_of(poor, config),
{
    let d = capped(rich.compute_unit_limit + 1);
    assert(rich.unit_price() >= poor.unit_price()) by (nonlinear_arith)
        requires
            rich.unit_price() == rich.prioritization_fee / d,
            poor.unit_price() == poor.prioritization_fee / d,
            d > 0,
            rich.prioritization_fee >= poor.prioritization_fee,
    ;
    assert(rich.unit_price() * config.weight_fee >= poor.unit_price() * config.weight_fee)
        by (nonlinear_arith)
        requires
            rich.unit_price() >= poor.unit_price(),
    ;
}

/// The score is the price of a compute unit times its weight, and the bonus times
/// its weight: the price is the fee for each unit of the limit and one more, the
/// bonus a million for each unit of the limit, both rounded down.
pub proof fn lemma_score_adds_up(costs: TxCosts, config: TighterBatchConfig, price: int, bonus: int)
    requires
        costs.compute_unit_limit < u64::MAX,
        0 <= price,
        0 <= bonus,
        price * (costs.compute_unit_limit + 1) <= costs.prioritization_fee < (price + 1) * (
        costs.compute_unit_limit + 1),
        costs.compute_unit_limit == 0 ==> bonus == 0,
        costs.compute_unit_limit > 0 ==> bonus * costs.compute_unit_limit <= 1_000_000 < (bonus + 1)
            * costs.compute_unit_limit,
        price * config.weight_fee + bonus * config.weight_efficiency <= u64::MAX,
    ensures
        score_of(costs, config) == price * config.weight_fee + bonus * config.weight_efficiency,
{
    let d = costs.compute_unit_limit + 1;
    let fee = costs.prioritization_fee as int;
    assert(price == fee / d) by (nonlinear_arith)
        requires
            price * d <= fee < (price + 1) * d,
            d > 0,
    ;
    assert(costs.unit_price() == price);
    if costs.compute_unit_limit > 0 {
        let l = costs.compute_unit_limit as int;
        assert(bonus == 1_000_000int / l) by (nonlinear_arith)
            requires
                bonus * l <= 1_000_000 < (bonus + 1) * l,
                l > 0,
        ;
    }
    assert(efficiency(costs.compute_unit_limit) == bonus);
    let a = price * config.weight_fee;
    let b = bonus * config.weight_efficiency;
    assert(a >= 0 && b >= 0) by (nonlinear_arith)
        requires
            a == price * config.weight_fee,
            b == bonus * config.weight_efficiency,
            0 <= price,
            0 <= bonus,
    ;
    assert(costs.unit_price() * config.weight_fee == a);
    assert(efficiency(costs.compute_unit_limit) * config.weight_efficiency == b);
}

/// The priority is a million times the score, as long as that is short of the
/// bundle marker.
pub proof fn lemma_priority_is_scaled_score(score: u64)
    ensures
        score * 1_000_000 < u64::MAX ==> scaled_score(score) == score * 1_000_000,
        score * 1_000_000 >= u64::MAX ==> scaled_score(score) == u64::MAX - 1,
{
}

/// The costs of a transaction, for scoring: what its compute budget asks for, and
/// what the block accounts for it.
pub proof fn lemma_costs_of(packet: Seq<u8>, features: Map<Seq<u8>, u64>)
    ensures
        match (budget_request(packet, features), block_cost(packet, features)) {
            (Some((price, limit)), Some(cost)) => match costs_of(packet, features) {
                Some(costs) => {
                    &&& costs.compute_unit_limit == limit
                    &&& costs.total_cost == cost
                    &&& costs.prioritization_fee * 1_000_000 >= price * limit
                        || costs.prioritization_fee == u64::MAX
                    &&& (costs.prioritization_fee - 1) * 1_000_000 < price * limit
                },
                None => false,
            },
            _ => costs_of(packet, features) is None,
        },
{
    if let (Some((price, limit)), Some(_)) = (
        budget_request(packet, features),
        block_cost(packet, features),
    ) {
        crate::value_laws::lemma_prioritization_fee(price, limit);
    }
}

} // verus!
