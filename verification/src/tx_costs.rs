//! Cost data of a transaction, for scoring.

use vstd::prelude::*;
use agave_feature_set::FeatureSet;

use crate::costs::{
    active_features, block_cost, budget_request, capped, prioritization_fee, prioritization_fee_of,
    read_block_cost, read_budget_request,
};

verus! {

/// Cost data extracted from a transaction.
#[derive(Debug, Clone, Copy, PartialEq, Eq, Structural)]
pub struct TxCosts {
    /// Prioritization fee in lamports.
    pub prioritization_fee: u64,
    /// Compute unit limit requested by the transaction.
    pub compute_unit_limit: u64,
    /// Total cost in block cost units.
    pub total_cost: u64,
}

impl TxCosts {
    /// The prioritization fee per compute unit.
    pub open spec fn unit_price(self) -> u64 {
        self.prioritization_fee / capped(self.compute_unit_limit + 1)
    }

    /// The prioritization fee per compute unit.
    pub fn compute_unit_price(&self) -> (price: u64)
        ensures
            price == self.unit_price(),
    {
        let divisor: u64 = self.compute_unit_limit.saturating_add(1);
        self.prioritization_fee / divisor
    }
}

/// The cost data of the transaction in a packet.
pub open spec fn costs_of(packet: Seq<u8>, features: Map<Seq<u8>, u64>) -> Option<TxCosts> {
    match (budget_request(packet, features), block_cost(packet, features)) {
        (Some(request), Some(cost)) => Some(
            TxCosts {
                prioritization_fee: prioritization_fee_of(request.0, request.1),
                compute_unit_limit: request.1 as u64,
                total_cost: cost,
            },
        ),
        _ => None,
    }
}

/// Cost data from a budget request and a block cost.
pub fn costs_from(request: (u64, u32), total_cost: u64) -> (r: TxCosts)
    ensures
        r.prioritization_fee == prioritization_fee_of(request.0, request.1),
        r.compute_unit_limit == request.1,
        r.total_cost == total_cost,
{
    TxCosts {
        prioritization_fee: prioritization_fee(request.0, request.1),
        compute_unit_limit: request.1 as u64,
        total_cost,
    }
}

/// The cost data of the transaction in a packet.
///
/// Returns `None` if the transaction cannot be parsed or its compute budget is
/// invalid.
pub fn derive_costs(packet: &[u8], feature_set: &FeatureSet) -> (r: Option<TxCosts>)
    ensures
        r == costs_of(packet@, active_features(*feature_set)),
{
    match (read_budget_request(packet, feature_set), read_block_cost(packet, feature_set)) {
        (Some(request), Some(cost)) => Some(costs_from(request, cost)),
        _ => None,
    }
}

} // verus!
