//! What holds of costs, rewards, values and priorities.

use vstd::prelude::*;

use crate::auction_model::{auction_priority_of, bid_values};
use crate::batch_model::{bundle_value, bundle_values};
use crate::bridge::BridgeModel;
use crate::costs::{
    block_cost, budget_request, bundle_priority_of, cost_and_reward, leader_reward,
    prioritization_fee_of, priority_and_cost, priority_of, signature_fee, RuntimeModel,
};
use crate::scheduler_model::{scan_upto, World};
use crate::transaction::sanitized_transaction;
use crate::tx_costs::{costs_of, TxCosts};

verus! {

/// The prioritization fee covers price times limit, and not a lamport more than
/// it has to; a fee that does not fit 64 bits is the highest that does.
pub proof fn lemma_prioritization_fee(price: u64, limit: u32)
    ensures
        ({
            let fee = prioritization_fee_of(price, limit);
            let micro = price * limit;
            ||| fee * 1_000_000 >= micro && (fee - 1) * 1_000_000 < micro
            ||| fee == u64::MAX && micro > u64::MAX * 1_000_000
        }),
        price > 0 && limit > 0 ==> prioritization_fee_of(price, limit) > 0,
        price == 0 || limit == 0 ==> prioritization_fee_of(price, limit) == 0,
{
    let micro = price * limit;
    assert(price > 0 && limit > 0 ==> micro > 0) by (nonlinear_arith)
        requires
            micro == price * limit,
    ;
    assert(price == 0 || limit == 0 ==> micro == 0) by (nonlinear_arith)
        requires
            micro == price * limit,
    ;
    assert(micro >= 0) by (nonlinear_arith)
        requires
            micro == price * limit,
    ;
}

/// The leader keeps the whole prioritization fee, and of the fee for signatures
/// all but the share that is burnt, which is rounded down.
pub proof fn lemma_reward_splits_fees(
    transaction_fee: u64,
    prioritization_fee: u64,
    burn_percent: u64,
    burnt: int,
)
    requires
        burn_percent <= 100,
        transaction_fee * burn_percent <= u64::MAX,
        burnt * 100 <= transaction_fee * burn_percent < burnt * 100 + 100,
    ensures
        0 <= burnt <= transaction_fee,
        match leader_reward(transaction_fee, prioritization_fee, burn_percent) {
            Some(reward) => if transaction_fee + prioritization_fee - burnt <= u64::MAX {
                reward + burnt == transaction_fee + prioritization_fee
            } else {
                reward == u64::MAX
            },
            None => false,
        },
{
    let product = transaction_fee * burn_percent;
    assert(0 <= product <= transaction_fee * 100) by (nonlinear_arith)
        requires
            product == transaction_fee * burn_percent,
            burn_percent <= 100,
    ;
    assert(burnt == product / 100);
}

/// A transaction costs what the block accounts for it; its reward is what the
/// leader keeps of its fees. It has neither if it is malformed.
pub proof fn lemma_cost_and_reward(
    runtime: RuntimeModel,
    packet: Seq<u8>,
    price: u64,
    limit: u32,
    cost: u64,
    fee: u64,
)
    requires
        budget_request(packet, runtime.features) == Some((price, limit)),
        block_cost(packet, runtime.features) == Some(cost),
        signature_fee(packet, runtime.lamports_per_signature) == Some(fee),
    ensures
        match leader_reward(fee, prioritization_fee_of(price, limit), runtime.burn_percent) {
            Some(reward) => {
                &&& cost_and_reward(runtime, packet) == Some((cost, reward))
                &&& priority_and_cost(runtime, packet) == Some((priority_of(cost, reward), cost))
            },
            None => cost_and_reward(runtime, packet) is None && priority_and_cost(
                runtime,
                packet,
            ) is None,
        },
{
}

/// A packet that is malformed, or whose compute budget is, has neither cost nor
/// reward nor priority.
pub proof fn lemma_malformed_has_no_cost(runtime: RuntimeModel, packet: Seq<u8>)
    requires
        budget_request(packet, runtime.features) is None || block_cost(packet, runtime.features)
            is None || signature_fee(packet, runtime.lamports_per_signature) is None,
    ensures
        cost_and_reward(runtime, packet) is None,
        priority_and_cost(runtime, packet) is None,
        bundle_value(runtime, packet) is None,
{
}

/// The priority of a transaction is its reward in millionths for each unit of
/// its cost and one more, rounded down; it stops short of the bundle marker.
pub proof fn lemma_priority_is_reward_per_unit(cost: u64, reward: u64)
    requires
        cost < u64::MAX,
        reward * 1_000_000 <= u64::MAX,
    ensures
        ({
            let p = priority_of(cost, reward);
            ||| p * (cost + 1) <= reward * 1_000_000 < (p + 1) * (cost + 1)
            ||| p == u64::MAX - 1 && cost == 0 && reward * 1_000_000 == u64::MAX
        }),
{
    let a = reward * 1_000_000;
    let d = cost + 1;
    let q = a / d;
    assert(q * d <= a < (q + 1) * d) by (nonlinear_arith)
        requires
            q == a / d,
            d > 0,
            a >= 0,
    ;
    if q == u64::MAX {
        assert(d == 1) by (nonlinear_arith)
            requires
                q * d <= a,
                a <= u64::MAX,
                q == u64::MAX,
                d >= 1,
        ;
    }
    assert(q <= a) by (nonlinear_arith)
        requires
            q * d <= a,
            d >= 1,
            q >= 0 || q < 0,
            a >= 0,
    ;
}

/// Of two transactions with the same reward, the cheaper one has no lower
/// priority.
pub proof fn lemma_cheaper_has_priority(cost: u64, dearer: u64, reward: u64)
    requires
        cost <= dearer,
    ensures
        priority_of(dearer, reward) <= priority_of(cost, reward),
        bundle_priority_of(dearer, reward) <= bundle_priority_of(cost, reward),
{
    let a = crate::costs::capped(reward * 1_000_000);
    let c = crate::costs::capped(cost + 1);
    let d = crate::costs::capped(dearer + 1);
    lemma_quotient_falls(a, c, d);
    let e: u64 = if cost == 0 { 1 } else { cost };
    let f: u64 = if dearer == 0 { 1 } else { dearer };
    lemma_quotient_falls(a, e, f);
}

proof fn lemma_quotient_falls(a: u64, c: u64, d: u64)
    requires
        0 < c <= d,
    ensures
        a / d <= a / c,
{
    assert(a / d <= a / c) by (nonlinear_arith)
        requires
            0 < c <= d,
    ;
}

/// The priority of a bundle is its value in millionths for each unit of its
/// cost, rounded down; a bundle that costs nothing counts as one unit.
pub proof fn lemma_bundle_priority_is_value_per_unit(cost: u64, value: u64)
    requires
        value * 1_000_000 <= u64::MAX,
    ensures
        ({
            let p = bundle_priority_of(cost, value);
            let units = if cost == 0 {
                1
            } else {
                cost as int
            };
            p * units <= value * 1_000_000 < (p + 1) * units
        }),
{
    let a = value * 1_000_000;
    let d: int = if cost == 0 {
        1
    } else {
        cost as int
    };
    let q = a / d;
    assert(q * d <= a < (q + 1) * d) by (nonlinear_arith)
        requires
            q == a / d,
            d > 0,
            a >= 0,
    ;
}

/// At equal cost, a higher value never gives a bundle a lower priority.
pub proof fn lemma_bundle_priority_monotone(cost: u64, value: u64, more: u64)
    requires
        value <= more,
    ensures
        bundle_priority_of(cost, value) <= bundle_priority_of(cost, more),
{
    let a = crate::costs::capped(value * 1_000_000);
    let b = crate::costs::capped(more * 1_000_000);
    let d: u64 = if cost == 0 { 1 } else { cost };
    assert(a <= b);
    assert(a / d <= b / d) by (nonlinear_arith)
        requires
            a <= b,
            d > 0,
    ;
}

/// A transaction of a bundle is worth the leader's reward for it and, on top of
/// that, exactly the tips that it pays.
pub proof fn lemma_value_counts_tips(runtime: RuntimeModel, packet: Seq<u8>)
    ensures
        match (cost_and_reward(runtime, packet), sanitized_transaction(packet)) {
            (Some((cost, reward)), Some(fields)) => match bundle_value(runtime, packet) {
                Some((units, value)) => units == cost && value - reward == fields.tip(),
                None => reward + fields.tip() > u64::MAX,
            },
            _ => bundle_value(runtime, packet) is None,
        },
{
}

/// Of two transactions with equal costs and rewards, the one that tips more is
/// worth more, by as much as it tips more; a bundle of it never has the lower
/// priority.
pub proof fn lemma_higher_tip_is_worth_more(runtime: RuntimeModel, packet: Seq<u8>, other: Seq<u8>)
    requires
        cost_and_reward(runtime, packet) == cost_and_reward(runtime, other),
        bundle_value(runtime, packet) is Some,
        bundle_value(runtime, other) is Some,
        sanitized_transaction(packet)->0.tip() < sanitized_transaction(other)->0.tip(),
    ensures
        ({
            let (cost, value) = bundle_value(runtime, packet)->0;
            let (units, more) = bundle_value(runtime, other)->0;
            &&& cost == units
            &&& value < more
            &&& more - value == sanitized_transaction(other)->0.tip() - sanitized_transaction(
                packet,
            )->0.tip()
            &&& bundle_priority_of(cost, value) <= bundle_priority_of(units, more)
        }),
{
    let (cost, value) = bundle_value(runtime, packet)->0;
    let (_, more) = bundle_value(runtime, other)->0;
    lemma_bundle_priority_monotone(cost, value, more);
}

/// The first `n` costs together.
pub open spec fn costs_sum(values: Seq<Option<(u64, u64)>>, n: int) -> int
    decreases n,
{
    if n <= 0 {
        0
    } else {
        costs_sum(values, n - 1) + (values[n - 1]->0).0
    }
}

/// The first `n` values together.
pub open spec fn values_sum(values: Seq<Option<(u64, u64)>>, n: int) -> int
    decreases n,
{
    if n <= 0 {
        0
    } else {
        values_sum(values, n - 1) + (values[n - 1]->0).1
    }
}

proof fn lemma_scan_sums(
    b: BridgeModel,
    packets: Seq<Seq<u8>>,
    values: Seq<Option<(u64, u64)>>,
    n: int,
)
    requires
        0 <= n <= packets.len() == values.len(),
    ensures
        scan_upto(b, packets, values, n).totals matches Some((cost, value)) ==> {
            &&& cost == costs_sum(values, n)
            &&& value == values_sum(values, n)
            &&& scan_upto(b, packets, values, n).keys.len() == n
            &&& forall|i: int| 0 <= i < n ==> #[trigger] values[i] is Some
            &&& forall|i: int|
                0 <= i < n ==> sanitized_transaction(#[trigger] packets[i]) is Some
        },
    decreases n,
{
    if n > 0 {
        lemma_scan_sums(b, packets, values, n - 1);
    }
}

/// A bundle is taken in only if each of its transactions is well formed and has
/// a cost and a value; it then costs what they cost together, and is worth what
/// they are worth together.
pub proof fn lemma_bundle_adds_up(w: World, packets: Seq<Seq<u8>>, values: Seq<Option<(u64, u64)>>)
    requires
        packets.len() == values.len(),
    ensures
        w.scan_bundle(packets, values).1 matches Some((keys, cost, value)) ==> {
            &&& packets.len() > 0
            &&& keys.len() == packets.len()
            &&& cost == costs_sum(values, values.len() as int)
            &&& value == values_sum(values, values.len() as int)
            &&& forall|i: int| 0 <= i < values.len() ==> #[trigger] values[i] is Some
            &&& forall|i: int|
                0 <= i < packets.len() ==> sanitized_transaction(#[trigger] packets[i]) is Some
        },
{
    lemma_scan_sums(w.b, packets, values, packets.len() as int);
}

/// Each transaction of a bundle is valued by itself, in its place.
pub proof fn lemma_valued_in_place(
    runtime: RuntimeModel,
    packets: Seq<Seq<u8>>,
    scores: Seq<u64>,
    min_score: u64,
    i: int,
)
    requires
        0 <= i < packets.len(),
    ensures
        bundle_values(runtime, packets).len() == packets.len(),
        bundle_values(runtime, packets)[i] == bundle_value(runtime, packets[i]),
        bid_values(runtime, packets, scores, min_score).len() == packets.len(),
        match auction_priority_of(runtime, packets[i], scores[i], min_score) {
            Some((score, cost)) => bid_values(runtime, packets, scores, min_score)[i] == Some(
                (cost, score),
            ),
            None => bid_values(runtime, packets, scores, min_score)[i] is None,
        },
{
}

/// The auction takes a transaction at the score it was given, short of the bundle
/// marker, and at the cost that the block accounts for it. One below the least
/// score is refused, one at it is not.
pub proof fn lemma_taken_at_its_score(
    runtime: RuntimeModel,
    packet: Seq<u8>,
    score: u64,
    min_score: u64,
)
    ensures
        match costs_of(packet, runtime.features) {
            Some(costs) => {
                &&& score < u64::MAX && score >= min_score ==> auction_priority_of(
                    runtime,
                    packet,
                    score,
                    min_score,
                ) == Some((score, costs.total_cost))
                &&& score < min_score ==> auction_priority_of(runtime, packet, score, min_score)
                    is None
                &&& score == u64::MAX && min_score < u64::MAX ==> auction_priority_of(
                    runtime,
                    packet,
                    score,
                    min_score,
                ) == Some(((u64::MAX - 1) as u64, costs.total_cost))
            },
            None => auction_priority_of(runtime, packet, score, min_score) is None,
        },
{
}

/// The costs of a transaction, for scoring: what its compute budget asks for, and
/// what the block accounts for it.
pub proof fn lemma_costs_of(packet: Seq<u8>, features: Map<Seq<u8>, u64>)
    ensures
        match (budget_request(packet, features), block_cost(packet, features)) {
            (Some((price, limit)), Some(cost)) => match costs_of(packet, features) {
                Some(costs) => {
                    &&& costs.compute_unit_limit == limit
                    &&& costs.total_cost == cost
                    &&& costs.prioritization_fee * 1_000_000 >= price * limit
                        || costs.prioritization_fee == u64::MAX
                    &&& (costs.prioritization_fee - 1) * 1_000_000 < price * limit
                },
                None => false,
            },
            _ => costs_of(packet, features) is None,
        },
{
    if let (Some((price, limit)), Some(cost)) = (
        budget_request(packet, features),
        block_cost(packet, features),
    ) {
        lemma_prioritization_fee(price, limit);
    }
}

/// The price of a compute unit is the prioritization fee for each unit of the
/// limit and one more, rounded down.
pub proof fn lemma_unit_price(costs: TxCosts)
    requires
        costs.compute_unit_limit < u64::MAX,
    ensures
        costs.unit_price() * (costs.compute_unit_limit + 1) <= costs.prioritization_fee,
        costs.prioritization_fee < (costs.unit_price() + 1) * (costs.compute_unit_limit + 1),
{
    let a = costs.prioritization_fee as int;
    let d = costs.compute_unit_limit + 1;
    let q = a / d;
    assert(q * d <= a < (q + 1) * d) by (nonlinear_arith)
        requires
            q == a / d,
            d > 0,
            a >= 0,
    ;
}

/// There is no reward where the burnt share cannot be told in 64 bits, or is more
/// than the fee; everywhere else there is one.
pub proof fn lemma_reward_refused(transaction_fee: u64, prioritization_fee: u64, burn_percent: u64)
    ensures
        leader_reward(transaction_fee, prioritization_fee, burn_percent) is None
            <==> transaction_fee * burn_percent > u64::MAX || transaction_fee * burn_percent
            >= transaction_fee * 100 + 100,
{
}

/// Rewards beyond what can be told in millionths count as the highest that can.
pub proof fn lemma_priority_of_high_rewards(cost: u64, reward: u64)
    requires
        reward * 1_000_000 > u64::MAX,
    ensures
        cost < u64::MAX ==> ({
            let p = priority_of(cost, reward);
            ||| p * (cost + 1) <= u64::MAX < (p + 1) * (cost + 1)
            ||| p == u64::MAX - 1 && cost == 0
        }),
        cost == 0 ==> bundle_priority_of(cost, reward) == u64::MAX,
        cost > 0 ==> ({
            let p = bundle_priority_of(cost, reward);
            p * cost <= u64::MAX < (p + 1) * cost
        }),
{
    let top = u64::MAX as int;
    if cost < u64::MAX {
        let d = cost + 1;
        let q = top / d;
        assert(q * d <= top < (q + 1) * d) by (nonlinear_arith)
            requires
                q == top / d,
                d > 0,
                top >= 0,
        ;
        if q == u64::MAX {
            assert(d == 1) by (nonlinear_arith)
                requires
                    q * d <= top,
                    top == u64::MAX,
                    q == u64::MAX,
                    d >= 1,
            ;
        }
        assert(q <= top) by (nonlinear_arith)
            requires
                q * d <= top,
                d >= 1,
                q >= 0 || q < 0,
                top >= 0,
        ;
    }
    if cost > 0 {
        let d = cost as int;
        let q = top / d;
        assert(q * d <= top < (q + 1) * d) by (nonlinear_arith)
            requires
                q == top / d,
                d > 0,
                top >= 0,
        ;
    }
}

} // verus!
