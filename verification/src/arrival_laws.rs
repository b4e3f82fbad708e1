//! What becomes of the transactions and bundles that arrive.

use vstd::prelude::*;

use crate::auction_model::{auction_priority_of, bid_values, AuctionWorld};
use crate::batch_model::{bundle_values, BatchWorld};
use crate::bridge::{ActionModel, BridgeModel, TxDecision};
use crate::containers::{is_least, least, lemma_least_exists};
use crate::costs::{bundle_priority_of, priority_and_cost};
use crate::jito::UpdateModel;
use crate::ordered::{increasing, lemma_increasing_subrange, lemma_with_item, Ordered};
use crate::pubkey::Pubkey;
use crate::scheduler_model::{scan_upto, CoreModel, World};
use crate::shared::{BundleId, BundleModel, PriorityId};
use crate::transaction::{sanitized_transaction, FieldsModel, TransactionModel};
use crate::value_laws::{costs_sum, values_sum};
use crate::worker::PollModel;

verus! {

/// Whether a message names a filtered account.
pub open spec fn names_filtered(fields: FieldsModel, filter: Seq<Pubkey>) -> bool {
    exists|i: int|
        0 <= i < fields.account_keys.len() && filter.contains(#[trigger] fields.account_keys[i])
}

/// What is known of a transaction that has just arrived.
pub open spec fn fresh_transaction(packet: Seq<u8>, simple_vote: bool) -> TransactionModel {
    TransactionModel {
        packet,
        fields: sanitized_transaction(packet)->0,
        simple_vote,
        resolved: None,
    }
}

/// Everything that waits is as it was.
pub open spec fn same_queues(a: CoreModel, b: CoreModel) -> bool {
    &&& b.unchecked == a.unchecked
    &&& b.checked == a.checked
    &&& b.bundles == a.bundles
    &&& b.executing == a.executing
    &&& b.deferred == a.deferred
    &&& b.in_flight_cus == a.in_flight_cus
}

/// A transaction that the validator forwards to the batch scheduler waits to be
/// checked, under the next key and with the priority and the cost that are its
/// own; unless it is malformed, has no priority, or names a filtered account.
/// Then nothing of it is kept.
#[verifier::rlimit(50)]
pub proof fn lemma_batch_tpu_arrives(b: BatchWorld, packet: Seq<u8>, simple_vote: bool)
    requires
        !b.w.b.transactions.contains_key(b.w.b.next_key),
    ensures
        ({
            let after = b.on_tpu(packet, simple_vote);
            let key = b.w.b.next_key;
            let taken = sanitized_transaction(packet) is Some && key < u64::MAX;
            let filtered = names_filtered(sanitized_transaction(packet)->0, b.w.s.filter_keys);
            let score = priority_and_cost(b.w.b.runtime, packet);
            &&& after.locks == b.locks
            &&& !taken ==> after == b
            &&& taken && score is None ==> {
                &&& same_queues(b.w.s, after.w.s)
                &&& after.w.b.transactions == b.w.b.transactions
                &&& after.w.s.stats.ingest_tpu_err == b.w.s.stats.ingest_tpu_err.wrapping_add(1)
            }
            &&& taken && score is Some && filtered ==> {
                &&& same_queues(b.w.s, after.w.s)
                &&& after.w.b.transactions == b.w.b.transactions
                &&& after.w.s.stats.ingest_tpu_filtered
                    == b.w.s.stats.ingest_tpu_filtered.wrapping_add(1)
            }
            &&& taken && score is Some && !filtered ==> {
                &&& after.w.s.unchecked == b.w.s.unchecked.insert(((score->0).0, (score->0).1, key))
                &&& after.w.s.checked == b.w.s.checked
                &&& after.w.s.bundles == b.w.s.bundles
                &&& after.w.b.transactions == b.w.b.transactions.insert(
                    key,
                    fresh_transaction(packet, simple_vote),
                )
                &&& after.w.s.stats.ingest_tpu_ok == b.w.s.stats.ingest_tpu_ok.wrapping_add(1)
            }
            &&& taken ==> after.w.b.next_key == key + 1
        }),
{
    reveal(BatchWorld::on_tpu);
    let after = b.on_tpu(packet, simple_vote);
    let key = b.w.b.next_key;
    if let (received, Some(k)) = b.w.b.received(packet, simple_vote) {
        assert(received.transactions.remove(key) =~= b.w.b.transactions);
        assert(received.transactions[key].fields == sanitized_transaction(packet)->0);
    }
}

/// Finding a place among the transactions that wait to be executed: where there
/// is room, there is a place. Where there is none, a transaction of higher
/// priority than the lowest takes its place, and the lowest is let go of; any
/// other is refused.
#[verifier::rlimit(50)]
pub proof fn lemma_place_found(w: World, meta: PriorityId)
    requires
        increasing::<PriorityId>(w.s.checked),
    ensures
        ({
            let (after, decision) = w.insert_with_capacity(meta);
            let full = w.s.checked.len() + w.s.executing.dom().len() + w.s.deferred.len()
                >= w.s.checked_capacity && w.s.checked.len() > 0;
            let lowest = w.s.checked[0];
            &&& increasing::<PriorityId>(after.s.checked)
            &&& after.s.unchecked == w.s.unchecked
            &&& after.s.bundles == w.s.bundles
            &&& after.s.executing == w.s.executing
            &&& after.s.deferred == w.s.deferred
            &&& !full ==> {
                &&& decision == TxDecision::Keep
                &&& after.b.transactions == w.b.transactions
                &&& forall|id: PriorityId| #[trigger]
                    after.s.checked.contains(id) <==> w.s.checked.contains(id) || id == meta
            }
            &&& full && meta.priority <= lowest.priority ==> {
                &&& decision == TxDecision::Drop
                &&& after.b.transactions == w.b.transactions
                &&& after.s.checked == w.s.checked
            }
            &&& full && meta.priority > lowest.priority ==> {
                &&& decision == TxDecision::Keep
                &&& after.b.transactions == w.b.transactions.remove(lowest.key)
                &&& forall|id: PriorityId| #[trigger]
                    after.s.checked.contains(id) <==> (w.s.checked.contains(id) && id != lowest)
                        || id == meta
            }
        }),
{
    let checked = w.s.checked;
    lemma_with_item::<PriorityId>(checked, meta);
    if checked.len() > 0 {
        let rest = checked.drop_first();
        lemma_increasing_subrange::<PriorityId>(checked, 1, checked.len() as int);
        lemma_with_item::<PriorityId>(rest, meta);
        assert forall|id: PriorityId| #[trigger]
            rest.contains(id) <==> checked.contains(id) && id != checked[0] by {
            if checked.contains(id) && id != checked[0] {
                let i = checked.index_of(id);
                assert(rest[i - 1] == id);
            }
            if rest.contains(id) {
                let i = rest.index_of(id);
                assert(checked[i + 1] == id);
                if id == checked[0] {
                    assert(PriorityId::before(checked[0], checked[i + 1]));
                }
            }
        }
        if !w.b.transactions.contains_key(checked[0].key) {
            assert(w.b.transactions.remove(checked[0].key) =~= w.b.transactions);
        }
    }
}

/// A transaction that the validator forwards to the auction scheduler needs no
/// check unless it looks up further accounts: then it waits for that, and
/// otherwise to be executed, if a place is found for it. Nothing is kept of one
/// that is malformed, scores too low, or names a filtered account.
#[verifier::rlimit(50)]
pub proof fn lemma_auction_tpu_arrives(
    a: AuctionWorld,
    packet: Seq<u8>,
    simple_vote: bool,
    score: u64,
)
    requires
        !a.w.b.transactions.contains_key(a.w.b.next_key),
    ensures
        ({
            let after = a.on_tpu(packet, simple_vote, score);
            let key = a.w.b.next_key;
            let taken = sanitized_transaction(packet) is Some && key < u64::MAX;
            let fields = sanitized_transaction(packet)->0;
            let filtered = names_filtered(fields, a.w.s.filter_keys);
            let bid = auction_priority_of(a.w.b.runtime, packet, score, a.min_score);
            let id = PriorityId { priority: (bid->0).0, cost: (bid->0).1, key };
            let with = World {
                b: BridgeModel {
                    transactions: a.w.b.transactions.insert(
                        key,
                        fresh_transaction(packet, simple_vote),
                    ),
                    next_key: (key + 1) as u64,
                    ..a.w.b
                },
                ..a.w
            };
            let (placed, decision) = with.insert_with_capacity(id);
            &&& after.held == a.held && after.min_score == a.min_score
            &&& !taken ==> after == a
            &&& taken && bid is None ==> {
                &&& same_queues(a.w.s, after.w.s)
                &&& after.w.b.transactions == a.w.b.transactions
                &&& after.w.s.stats.ingest_tpu_err == a.w.s.stats.ingest_tpu_err.wrapping_add(1)
            }
            &&& taken && bid is Some && filtered ==> {
                &&& same_queues(a.w.s, after.w.s)
                &&& after.w.b.transactions == a.w.b.transactions
                &&& after.w.s.stats.ingest_tpu_filtered
                    == a.w.s.stats.ingest_tpu_filtered.wrapping_add(1)
            }
            &&& taken && bid is Some && !filtered ==> {
                &&& after.w.s.stats.ingest_tpu_ok == a.w.s.stats.ingest_tpu_ok.wrapping_add(1)
                &&& fields.header.num_lookups > 0 ==> {
                    &&& after.w.s.unchecked == a.w.s.unchecked.insert(id.triple())
                    &&& after.w.s.checked == a.w.s.checked
                    &&& after.w.b.transactions == with.b.transactions
                }
                &&& fields.header.num_lookups == 0 ==> {
                    &&& after.w.s.unchecked == a.w.s.unchecked
                    &&& after.w.s.checked == placed.s.checked
                    &&& after.w.b.transactions == (match decision {
                        TxDecision::Keep => placed.b.transactions,
                        TxDecision::Drop => placed.b.transactions.remove(key),
                    })
                }
            }
        }),
{
    reveal(AuctionWorld::on_tpu);
    let key = a.w.b.next_key;
    if let (received, Some(k)) = a.w.b.received(packet, simple_vote) {
        assert(received.transactions.remove(key) =~= a.w.b.transactions);
        assert(received.transactions[key].fields == sanitized_transaction(packet)->0);
        let with = World { b: received, ..a.w };
        if let Some((priority, cost)) = auction_priority_of(
            a.w.b.runtime,
            packet,
            score,
            a.min_score,
        ) {
            let id = PriorityId { priority, cost, key };
            let placed = with.insert_with_capacity(id).0;
            if !placed.b.transactions.contains_key(key) {
                assert(placed.b.transactions.remove(key) =~= placed.b.transactions);
            }
            if with.insert_with_capacity(id).1 == TxDecision::Drop {
                assert(placed.b.transactions == with.b.transactions);
            }
        }
    }
}

/// A packet of the block engine goes the same way with the batch scheduler: it
/// waits to be checked. Where there is no room, the transaction of lowest
/// priority is let go of first.
#[verifier::rlimit(50)]
pub proof fn lemma_batch_packet_arrives(b: BatchWorld, packet: Seq<u8>, now: u64)
    requires
        !b.w.b.transactions.contains_key(b.w.b.next_key),
    ensures
        ({
            let after = b.on_update(UpdateModel::Packet(packet), now);
            let key = b.w.b.next_key;
            let taken = sanitized_transaction(packet) is Some && key < u64::MAX;
            let filtered = names_filtered(sanitized_transaction(packet)->0, b.w.s.filter_keys);
            let score = priority_and_cost(b.w.b.runtime, packet);
            let entry = ((score->0).0, (score->0).1, key);
            let full = b.w.s.unchecked.len() == b.w.s.unchecked_capacity && b.w.s.unchecked.len() > 0;
            &&& !taken ==> after == b
            &&& taken && (score is None || filtered) ==> {
                &&& same_queues(b.w.s, after.w.s)
                &&& after.w.b.transactions == b.w.b.transactions
            }
            &&& taken && score is None ==> after.w.s.stats.ingest_custom_err
                == b.w.s.stats.ingest_custom_err.wrapping_add(1)
            &&& taken && score is Some && filtered ==> after.w.s.stats.ingest_custom_filtered
                == b.w.s.stats.ingest_custom_filtered.wrapping_add(1)
            &&& taken && score is Some && !filtered ==> {
                &&& after.w.s.checked == b.w.s.checked
                &&& after.w.s.bundles == b.w.s.bundles
                &&& after.w.s.stats.ingest_custom_ok == b.w.s.stats.ingest_custom_ok.wrapping_add(1)
                &&& !full ==> {
                    &&& after.w.s.unchecked == b.w.s.unchecked.insert(entry)
                    &&& after.w.b.transactions == b.w.b.transactions.insert(
                        key,
                        fresh_transaction(packet, false),
                    )
                }
                &&& full ==> {
                    &&& is_least(b.w.s.unchecked, least(b.w.s.unchecked))
                    &&& after.w.s.unchecked == b.w.s.unchecked.remove(
                        least(b.w.s.unchecked),
                    ).insert(entry)
                    &&& after.w.b.transactions == b.w.b.transactions.insert(
                        key,
                        fresh_transaction(packet, false),
                    ).remove(least(b.w.s.unchecked).2)
                }
            }
            &&& taken ==> after.w.b.actions.len() > b.w.b.actions.len()
                && after.w.b.actions[b.w.b.actions.len() as int] == (ActionModel::Insert {
                key,
                packet,
            })
        }),
{
    reveal(BatchWorld::on_update);
    let key = b.w.b.next_key;
    if let (inserted, Some(k)) = b.w.b.inserted(packet) {
        assert(inserted.transactions.remove(key) =~= b.w.b.transactions);
        assert(inserted.transactions[key].fields == sanitized_transaction(packet)->0);
        if b.w.s.unchecked.len() > 0 {
            lemma_least_exists(b.w.s.unchecked);
            let victim = least(b.w.s.unchecked).2;
            if !inserted.transactions.contains_key(victim) {
                assert(inserted.transactions.remove(victim) =~= inserted.transactions);
            }
        }
    }
}

/// A packet of the block engine goes the same way with the auction scheduler as
/// one that the validator forwards: it waits to be checked if it looks up further
/// accounts, where the transaction of lowest priority makes room if there is
/// none; and otherwise to be executed, if a place is found for it.
#[verifier::rlimit(50)]
pub proof fn lemma_auction_packet_arrives(
    a: AuctionWorld,
    packet: Seq<u8>,
    scores: Seq<u64>,
    now: u64,
)
    requires
        !a.w.b.transactions.contains_key(a.w.b.next_key),
        scores.len() == 1,
    ensures
        ({
            let after = a.on_update(UpdateModel::Packet(packet), scores, now);
            let key = a.w.b.next_key;
            let taken = sanitized_transaction(packet) is Some && key < u64::MAX;
            let fields = sanitized_transaction(packet)->0;
            let filtered = names_filtered(fields, a.w.s.filter_keys);
            let bid = auction_priority_of(a.w.b.runtime, packet, scores[0], a.min_score);
            let full = a.w.s.unchecked.len() == a.w.s.unchecked_capacity && a.w.s.unchecked.len() > 0;
            let id = PriorityId { priority: (bid->0).0, cost: (bid->0).1, key };
            let with = World {
                b: BridgeModel {
                    transactions: a.w.b.transactions.insert(key, fresh_transaction(packet, false)),
                    next_key: (key + 1) as u64,
                    actions: a.w.b.actions.push(ActionModel::Insert { key, packet }),
                    ..a.w.b
                },
                ..a.w
            };
            let (placed, decision) = with.insert_with_capacity(id);
            &&& after.held == a.held
            &&& !taken ==> after == a
            &&& taken && (bid is None || filtered) ==> {
                &&& same_queues(a.w.s, after.w.s)
                &&& after.w.b.transactions == a.w.b.transactions
            }
            &&& taken && bid is None ==> after.w.s.stats.ingest_custom_err
                == a.w.s.stats.ingest_custom_err.wrapping_add(1)
            &&& taken && bid is Some && filtered ==> after.w.s.stats.ingest_custom_filtered
                == a.w.s.stats.ingest_custom_filtered.wrapping_add(1)
            &&& taken && bid is Some && !filtered ==> {
                &&& after.w.s.stats.ingest_custom_ok == a.w.s.stats.ingest_custom_ok.wrapping_add(1)
                &&& fields.header.num_lookups > 0 && !full ==> {
                    &&& after.w.s.unchecked == a.w.s.unchecked.insert(id.triple())
                    &&& after.w.s.checked == a.w.s.checked
                    &&& after.w.b.transactions == with.b.transactions
                }
                &&& fields.header.num_lookups > 0 && full ==> {
                    &&& is_least(a.w.s.unchecked, least(a.w.s.unchecked))
                    &&& after.w.s.unchecked == a.w.s.unchecked.remove(
                        least(a.w.s.unchecked),
                    ).insert(id.triple())
                    &&& after.w.s.checked == a.w.s.checked
                    &&& after.w.b.transactions == with.b.transactions.remove(
                        least(a.w.s.unchecked).2,
                    )
                }
                &&& fields.header.num_lookups == 0 ==> {
                    &&& after.w.s.unchecked == a.w.s.unchecked
                    &&& after.w.s.checked == placed.s.checked
                    &&& after.w.b.transactions == (match decision {
                        TxDecision::Keep => placed.b.transactions,
                        TxDecision::Drop => placed.b.transactions.remove(key),
                    })
                }
            }
        }),
{
    reveal(AuctionWorld::on_update);
    let key = a.w.b.next_key;
    if let (inserted, Some(k)) = a.w.b.inserted(packet) {
        assert(inserted.transactions.remove(key) =~= a.w.b.transactions);
        assert(inserted.transactions[key].fields == sanitized_transaction(packet)->0);
        let with = World { b: inserted, ..a.w };
        if a.w.s.unchecked.len() > 0 {
            lemma_least_exists(a.w.s.unchecked);
            let victim = least(a.w.s.unchecked).2;
            if !inserted.transactions.contains_key(victim) {
                assert(inserted.transactions.remove(victim) =~= inserted.transactions);
            }
        }
        if let Some((priority, cost)) = auction_priority_of(
            a.w.b.runtime,
            packet,
            scores[0],
            a.min_score,
        ) {
            let id = PriorityId { priority, cost, key };
            let placed = with.insert_with_capacity(id).0;
            if !placed.b.transactions.contains_key(key) {
                assert(placed.b.transactions.remove(key) =~= placed.b.transactions);
            }
        }
    }
}

/// The block engine's news is remembered: who receives tips at present, and the
/// latest blockhash. The block builder of a running scheduler stays as it is.
pub proof fn lemma_news_remembered(b: BatchWorld, a: AuctionWorld, update: UpdateModel, now: u64)
    ensures
        match update {
            UpdateModel::TipConfig(config) => {
                &&& b.on_update(update, now).w.s == (CoreModel {
                    tip_config: Some(config),
                    ..b.w.s
                })
                &&& b.on_update(update, now).w.b == b.w.b
                &&& a.on_update(update, Seq::empty(), now).w.s == (CoreModel {
                    tip_config: Some(config),
                    ..a.w.s
                })
                &&& a.on_update(update, Seq::empty(), now).w.b == a.w.b
            },
            UpdateModel::RecentBlockhash(hash) => {
                &&& b.on_update(update, now).w.s == (CoreModel { recent_blockhash: hash, ..b.w.s })
                &&& b.on_update(update, now).w.b == b.w.b
                &&& a.on_update(update, Seq::empty(), now).w.s == (CoreModel {
                    recent_blockhash: hash,
                    ..a.w.s
                })
                &&& a.on_update(update, Seq::empty(), now).w.b == a.w.b
            },
            UpdateModel::BuilderConfig(_) => b.on_update(update, now) == b && a.on_update(
                update,
                Seq::empty(),
                now,
            ) == a,
            _ => true,
        },
{
    reveal(BatchWorld::on_update);
    reveal(AuctionWorld::on_update);
}

proof fn lemma_sums_grow(values: Seq<Option<(u64, u64)>>, n: int, m: int)
    requires
        0 <= n <= m,
    ensures
        0 <= costs_sum(values, n) <= costs_sum(values, m),
        0 <= values_sum(values, n) <= values_sum(values, m),
    decreases m,
{
    if n < m {
        lemma_sums_grow(values, n, m - 1);
    } else if n > 0 {
        lemma_sums_grow(values, n - 1, m - 1);
    }
}

/// Whether a bundle is complete: it holds something, each of its transactions is
/// well formed and has a cost and a value, and their sums fit 64 bits.
pub open spec fn complete(packets: Seq<Seq<u8>>, values: Seq<Option<(u64, u64)>>) -> bool {
    &&& packets.len() > 0
    &&& packets.len() == values.len()
    &&& forall|i: int| 0 <= i < packets.len() ==> sanitized_transaction(#[trigger] packets[i]) is Some
    &&& forall|i: int| 0 <= i < values.len() ==> #[trigger] values[i] is Some
    &&& costs_sum(values, values.len() as int) <= u64::MAX
    &&& values_sum(values, values.len() as int) <= u64::MAX
}

#[verifier::rlimit(50)]
proof fn lemma_scan_complete(
    b: BridgeModel,
    packets: Seq<Seq<u8>>,
    values: Seq<Option<(u64, u64)>>,
    n: int,
)
    requires
        complete(packets, values),
        b.next_key + packets.len() <= u64::MAX,
        0 <= n <= packets.len(),
    ensures
        ({
            let scan = scan_upto(b, packets, values, n);
            &&& scan.totals == Some(
                (costs_sum(values, n) as u64, values_sum(values, n) as u64),
            )
            &&& 0 <= costs_sum(values, n) <= u64::MAX
            &&& 0 <= values_sum(values, n) <= u64::MAX
            &&& scan.keys.len() == n
            &&& forall|i: int| 0 <= i < n ==> #[trigger] scan.keys[i] == b.next_key + i
            &&& scan.b.next_key == b.next_key + n
            &&& forall|i: int|
                0 <= i < n ==> scan.b.transactions.contains_key(#[trigger] scan.keys[i])
                    && scan.b.transactions[scan.keys[i]] == fresh_transaction(packets[i], false)
            &&& forall|key: u64|
                key < b.next_key ==> (#[trigger] scan.b.transactions.contains_key(key)
                    <==> b.transactions.contains_key(key)) && scan.b.transactions[key]
                    == b.transactions[key]
        }),
    decreases n,
{
    lemma_sums_grow(values, n, values.len() as int);
    if n > 0 {
        lemma_scan_complete(b, packets, values, n - 1);
        assert(values[n - 1] is Some);
        assert(sanitized_transaction(packets[n - 1]) is Some);
        let before = scan_upto(b, packets, values, n - 1);
        let scan = scan_upto(b, packets, values, n);
        assert(scan.keys == before.keys.push((b.next_key + n - 1) as u64));
        assert forall|i: int| 0 <= i < n implies scan.b.transactions.contains_key(
            #[trigger] scan.keys[i],
        ) && scan.b.transactions[scan.keys[i]] == fresh_transaction(packets[i], false) by {
            if i < n - 1 {
                assert(scan.keys[i] == before.keys[i]);
                assert(before.b.transactions.contains_key(before.keys[i]));
                assert(before.keys[i] != b.next_key + n - 1);
            }
        }
    }
}

/// A complete bundle none of whose transactions names a filtered account is
/// taken in, its transactions under the next keys in order; one with a filtered
/// account is not, and none of its transactions is kept.
#[verifier::rlimit(50)]
pub proof fn lemma_bundle_taken_in(w: World, packets: Seq<Seq<u8>>, values: Seq<Option<(u64, u64)>>)
    requires
        complete(packets, values),
        w.b.next_key + packets.len() <= u64::MAX,
    ensures
        ({
            let filtered = exists|i: int|
                0 <= i < packets.len() && names_filtered(
                    sanitized_transaction(#[trigger] packets[i])->0,
                    w.s.filter_keys,
                );
            let (after, taken) = w.scan_bundle(packets, values);
            &&& taken is Some <==> !filtered
            &&& after.s == w.s
            &&& taken matches Some((keys, cost, value)) ==> {
                &&& keys.len() == packets.len()
                &&& forall|i: int| 0 <= i < keys.len() ==> #[trigger] keys[i] == w.b.next_key + i
                &&& forall|i: int|
                    0 <= i < keys.len() ==> after.b.transactions.contains_key(#[trigger] keys[i])
                        && after.b.transactions[keys[i]] == fresh_transaction(packets[i], false)
                &&& cost == costs_sum(values, values.len() as int)
                &&& value == values_sum(values, values.len() as int)
            }
            &&& taken is None ==> forall|key: u64|
                w.b.next_key <= key < w.b.next_key + packets.len()
                    ==> !#[trigger] after.b.transactions.contains_key(key)
        }),
{
    let n = packets.len() as int;
    lemma_scan_complete(w.b, packets, values, n);
    let scan = scan_upto(w.b, packets, values, n);
    if crate::scheduler_model::any_filtered(scan.b, scan.keys, w.s.filter_keys) {
        let i = choose|i: int|
            0 <= i < scan.keys.len() && scan.b.transactions.contains_key(#[trigger] scan.keys[i])
                && crate::transaction::any_listed(
                scan.b.transactions[scan.keys[i]].fields.account_keys,
                w.s.filter_keys,
            );
        assert(scan.b.transactions[scan.keys[i]] == fresh_transaction(packets[i], false));
        assert(names_filtered(sanitized_transaction(packets[i])->0, w.s.filter_keys));
        lemma_dropped_gone(scan.b, scan.keys, scan.keys.len() as int);
        let after = w.scan_bundle(packets, values).0;
        assert forall|key: u64|
            w.b.next_key <= key < w.b.next_key + packets.len() implies !#[trigger] after.b.transactions.contains_key(
        key) by {
            let j = key - w.b.next_key;
            assert(scan.keys[j] == key);
        }
    } else {
        assert forall|i: int| 0 <= i < packets.len() implies !names_filtered(
            sanitized_transaction(#[trigger] packets[i])->0,
            w.s.filter_keys,
        ) by {
            assert(scan.b.transactions.contains_key(scan.keys[i]));
            assert(scan.b.transactions[scan.keys[i]] == fresh_transaction(packets[i], false));
        }
    }
}

proof fn lemma_dropped_gone(b: BridgeModel, keys: Seq<u64>, n: int)
    requires
        0 <= n <= keys.len(),
    ensures
        forall|i: int| 0 <= i < n ==> !b.dropped_upto(keys, n).transactions.contains_key(
            #[trigger] keys[i],
        ),
        forall|key: u64| #[trigger]
            b.dropped_upto(keys, n).transactions.contains_key(key) ==> b.transactions.contains_key(
                key,
            ),
    decreases n,
{
    if n > 0 {
        lemma_dropped_gone(b, keys, n - 1);
        let before = b.dropped_upto(keys, n - 1);
        assert forall|key: u64| #[trigger]
            b.dropped_upto(keys, n).transactions.contains_key(key) implies b.transactions.contains_key(
            key,
        ) by {
            assert(before.transactions.contains_key(key));
        }
    }
}

proof fn lemma_discarded_gone(w: World, keys: Seq<u64>, n: int)
    requires
        0 <= n <= keys.len(),
    ensures
        w.discard_upto(keys, n).s == w.s,
        forall|i: int| 0 <= i < n ==> !w.discard_upto(keys, n).b.transactions.contains_key(
            #[trigger] keys[i],
        ),
        forall|key: u64| #[trigger]
            w.discard_upto(keys, n).b.transactions.contains_key(key) <==> w.b.transactions.contains_key(
                key,
            ) && !keys.take(n).contains(key),
    decreases n,
{
    if n > 0 {
        lemma_discarded_gone(w, keys, n - 1);
        assert(keys.take(n) =~= keys.take(n - 1).push(keys[n - 1]));
        assert forall|key: u64| #[trigger] keys.take(n).contains(key) <==> keys.take(n - 1).contains(
            key,
        ) || key == keys[n - 1] by {
            if keys.take(n - 1).contains(key) {
                let i = keys.take(n - 1).index_of(key);
                assert(keys.take(n)[i] == key);
            }
            if key == keys[n - 1] {
                assert(keys.take(n)[n - 1] == key);
            }
            if keys.take(n).contains(key) && key != keys[n - 1] {
                let i = keys.take(n).index_of(key);
                assert(keys.take(n - 1)[i] == key);
            }
        }
    } else {
        assert(keys.take(0) =~= Seq::empty());
    }
}

proof fn lemma_reported_bundle(
    w: World,
    keys: Seq<u64>,
    priority: u64,
    action: crate::events::TransactionAction,
    n: int,
)
    ensures
        w.report_bundle_upto(keys, priority, action, n).s == w.s,
        w.report_bundle_upto(keys, priority, action, n).b.transactions == w.b.transactions,
    decreases n,
{
    if n > 0 {
        lemma_reported_bundle(w, keys, priority, action, n - 1);
    }
}

proof fn lemma_queued(w: World, keys: Seq<u64>, n: int)
    ensures
        w.queue_upto(keys, n).s == w.s,
        w.queue_upto(keys, n).b.transactions == w.b.transactions,
    decreases n,
{
    if n > 0 {
        lemma_queued(w, keys, n - 1);
    }
}

/// A bundle that is stored waits, beside all that waited before. Only where
/// there is no room is one let go of: the one of lowest priority, with all of its
/// transactions.
#[verifier::rlimit(50)]
pub proof fn lemma_bundle_stored(w: World, bundle: BundleModel)
    requires
        increasing::<BundleId>(w.s.bundles),
    ensures
        ({
            let after = w.store_bundle(bundle);
            let full = w.s.bundles.len() == w.s.bundle_capacity && w.s.bundles.len() > 0;
            &&& increasing::<BundleId>(after.s.bundles)
            &&& after.s.checked == w.s.checked && after.s.unchecked == w.s.unchecked
                && after.s.executing == w.s.executing
            &&& !full ==> {
                &&& forall|other: BundleModel| #[trigger]
                    after.s.bundles.contains(other) <==> w.s.bundles.contains(other) || other
                        == bundle
                &&& after.b.transactions == w.b.transactions
            }
            &&& full ==> {
                &&& forall|other: BundleModel| #[trigger]
                    after.s.bundles.contains(other) <==> (w.s.bundles.contains(other) && other
                        != w.s.bundles[0]) || other == bundle
                &&& forall|key: u64| #[trigger]
                    after.b.transactions.contains_key(key) <==> w.b.transactions.contains_key(key)
                        && !w.s.bundles[0].keys.contains(key)
            }
        }),
{
    let n = bundle.keys.len() as int;
    let action = w.bundle_ingest(bundle.keys);
    lemma_reported_bundle(w, bundle.keys, bundle.priority, action, n);
    let reported = w.report_bundle_upto(bundle.keys, bundle.priority, action, n);
    let evicted = reported.evict_bundle();
    lemma_queued(evicted, bundle.keys, n);
    let bundles = w.s.bundles;
    lemma_with_item::<BundleId>(bundles, bundle);
    if bundles.len() > 0 {
        let rest = bundles.drop_first();
        lemma_increasing_subrange::<BundleId>(bundles, 1, bundles.len() as int);
        lemma_with_item::<BundleId>(rest, bundle);
        assert forall|other: BundleModel| #[trigger]
            rest.contains(other) <==> bundles.contains(other) && other != bundles[0] by {
            if bundles.contains(other) && other != bundles[0] {
                let i = bundles.index_of(other);
                assert(rest[i - 1] == other);
            }
            if rest.contains(other) {
                let i = rest.index_of(other);
                assert(bundles[i + 1] == other);
                if other == bundles[0] {
                    assert(BundleId::before(bundles[0], bundles[i + 1]));
                    BundleId::before_irreflexive(bundles[0]);
                }
            }
        }
        let lowest = bundles[0].keys;
        let dropped = World {
            s: CoreModel { bundles: rest, ..reported.s },
            ..reported
        };
        lemma_discarded_gone(dropped, lowest, lowest.len() as int);
        assert(lowest.take(lowest.len() as int) =~= lowest);
    }
}

/// A bundle that arrives waits with the priority of what it pays for its cost,
/// from the time of its arrival on. The batch scheduler.
#[verifier::rlimit(50)]
pub proof fn lemma_batch_bundle_arrives(b: BatchWorld, packets: Seq<Seq<u8>>, now: u64)
    requires
        increasing::<BundleId>(b.w.s.bundles),
        complete(packets, bundle_values(b.w.b.runtime, packets)),
        b.w.b.next_key + packets.len() <= u64::MAX,
        forall|i: int|
            0 <= i < packets.len() ==> !names_filtered(
                sanitized_transaction(#[trigger] packets[i])->0,
                b.w.s.filter_keys,
            ),
    ensures
        ({
            let values = bundle_values(b.w.b.runtime, packets);
            let n = packets.len() as int;
            let cost = costs_sum(values, n) as u64;
            let after = b.on_update(UpdateModel::Bundle(packets), now);
            let bundle = BundleModel {
                priority: bundle_priority_of(cost, values_sum(values, n) as u64),
                cost,
                received_at: now,
                keys: Seq::new(packets.len(), |i: int| (b.w.b.next_key + i) as u64),
            };
            after.w.s.bundles.contains(bundle)
        }),
{
    reveal(BatchWorld::on_update);
    let values = bundle_values(b.w.b.runtime, packets);
    lemma_bundle_taken_in(b.w, packets, values);
    let (w, taken) = b.w.scan_bundle(packets, values);
    let (keys, cost, value) = taken->0;
    let expected = Seq::new(packets.len(), |i: int| (b.w.b.next_key + i) as u64);
    assert(keys =~= expected);
    lemma_bundle_stored(
        w,
        BundleModel {
            priority: bundle_priority_of(cost, value),
            cost,
            received_at: now,
            keys,
        },
    );
}

/// A bundle that arrives waits with the sum of its scores for its priority, short
/// of the bundle marker, from the time of its arrival on. The auction scheduler.
#[verifier::rlimit(50)]
pub proof fn lemma_auction_bundle_arrives(
    a: AuctionWorld,
    packets: Seq<Seq<u8>>,
    scores: Seq<u64>,
    now: u64,
)
    requires
        increasing::<BundleId>(a.w.s.bundles),
        complete(packets, bid_values(a.w.b.runtime, packets, scores, a.min_score)),
        a.w.b.next_key + packets.len() <= u64::MAX,
        forall|i: int|
            0 <= i < packets.len() ==> !names_filtered(
                sanitized_transaction(#[trigger] packets[i])->0,
                a.w.s.filter_keys,
            ),
    ensures
        ({
            let values = bid_values(a.w.b.runtime, packets, scores, a.min_score);
            let n = packets.len() as int;
            let sum = values_sum(values, n);
            let after = a.on_update(UpdateModel::Bundle(packets), scores, now);
            let bundle = BundleModel {
                priority: (if sum < u64::MAX {
                    sum
                } else {
                    u64::MAX - 1
                }) as u64,
                cost: costs_sum(values, n) as u64,
                received_at: now,
                keys: Seq::new(packets.len(), |i: int| (a.w.b.next_key + i) as u64),
            };
            after.w.s.bundles.contains(bundle)
        }),
{
    reveal(AuctionWorld::on_update);
    let values = bid_values(a.w.b.runtime, packets, scores, a.min_score);
    lemma_bundle_taken_in(a.w, packets, values);
    lemma_sums_grow(values, 0, packets.len() as int);
    let (w, taken) = a.w.scan_bundle(packets, values);
    let (keys, cost, value) = taken->0;
    let expected = Seq::new(packets.len(), |i: int| (a.w.b.next_key + i) as u64);
    assert(keys =~= expected);
    lemma_bundle_stored(
        w,
        BundleModel {
            priority: crate::auction_model::capped_score(value),
            cost,
            received_at: now,
            keys,
        },
    );
}

/// A bundle waits for as long as it was told to and not longer: once more time
/// has passed since its arrival, it is gone.
pub proof fn lemma_bundle_waits_its_time(w: World, now: u64, bundle: BundleModel)
    requires
        w.s.bundles.contains(bundle),
    ensures
        w.drop_expired_bundles(now).s.bundles.contains(bundle) <==> now <= bundle.received_at
            + w.s.runtime.bundle_expiry,
{
    crate::scheduler_laws::lemma_only_expired_dropped(w, now, bundle);
}

proof fn lemma_expired_gone(w: World, bundles: Seq<BundleModel>, now: u64, n: int, k: int, i: int)
    requires
        0 <= k < n <= bundles.len(),
        now > bundles[k].received_at + w.s.runtime.bundle_expiry,
        0 <= i < bundles[k].keys.len(),
    ensures
        w.discard_expired_upto(bundles, now, n).s == w.s,
        !w.discard_expired_upto(bundles, now, n).b.transactions.contains_key(bundles[k].keys[i]),
    decreases n,
{
    let before = w.discard_expired_upto(bundles, now, n - 1);
    lemma_expired_same(w, bundles, now, n - 1);
    let keys = bundles[n - 1].keys;
    lemma_discarded_gone(before, keys, keys.len() as int);
    if k < n - 1 {
        lemma_expired_gone(w, bundles, now, n - 1, k, i);
    }
}

proof fn lemma_expired_same(w: World, bundles: Seq<BundleModel>, now: u64, n: int)
    requires
        0 <= n <= bundles.len(),
    ensures
        w.discard_expired_upto(bundles, now, n).s == w.s,
    decreases n,
{
    if n > 0 {
        lemma_expired_same(w, bundles, now, n - 1);
        let before = w.discard_expired_upto(bundles, now, n - 1);
        let keys = bundles[n - 1].keys;
        lemma_discarded_gone(before, keys, keys.len() as int);
    }
}

/// With a bundle that is too old, all of its transactions are let go of.
pub proof fn lemma_old_bundle_dropped_whole(w: World, now: u64, k: int, i: int)
    requires
        0 <= k < w.s.bundles.len(),
        now > w.s.bundles[k].received_at + w.s.runtime.bundle_expiry,
        0 <= i < w.s.bundles[k].keys.len(),
    ensures
        !w.drop_expired_bundles(now).b.transactions.contains_key(w.s.bundles[k].keys[i]),
{
    let n = w.s.bundles.len() as int;
    let fresh = crate::scheduler_model::fresh_upto(
        w.s.bundles,
        now,
        w.s.runtime.bundle_expiry,
        n,
    );
    let shorter = World { s: CoreModel { bundles: fresh, ..w.s }, ..w };
    lemma_expired_gone(shorter, w.s.bundles, now, n, k, i);
}

/// Room is made for exactly what is about to arrive, and for no more.
pub proof fn lemma_room_just_made(w: World, additional: nat)
    ensures
        ({
            let before = w.s.unchecked.len() as int;
            let room = w.s.unchecked_capacity - additional;
            let after = w.make_room(additional).s.unchecked.len() as int;
            &&& before <= room ==> w.make_room(additional).s.unchecked == w.s.unchecked
            &&& before > room && room >= 0 ==> after == room
            &&& room < 0 ==> after == 0
        }),
{
    let shortfall = crate::worker::floored(
        (w.s.unchecked.len() + additional) as int,
        w.s.unchecked_capacity as int,
    );
    lemma_evicted_len(w, shortfall);
}

proof fn lemma_evicted_len(w: World, n: int)
    requires
        0 <= n,
    ensures
        n <= w.s.unchecked.len() ==> w.evict_unchecked_upto(n).s.unchecked.len() + n
            == w.s.unchecked.len(),
        n > w.s.unchecked.len() ==> w.evict_unchecked_upto(n).s.unchecked.len() == 0,
    decreases n,
{
    if n > 0 {
        lemma_evicted_len(w, n - 1);
        let before = w.evict_unchecked_upto(n - 1);
        if before.s.unchecked.len() > 0 {
            crate::scheduler_laws::lemma_lowest_unchecked_evicted(before);
        }
    }
}

proof fn lemma_same_tpu_prefix(
    b: BatchWorld,
    tpu: Seq<(Seq<u8>, bool)>,
    other: Seq<(Seq<u8>, bool)>,
    n: int,
)
    requires
        0 <= n <= tpu.len(),
        n <= other.len(),
        tpu.take(n) == other.take(n),
    ensures
        b.on_tpu_upto(tpu, n) == b.on_tpu_upto(other, n),
    decreases n,
{
    if n > 0 {
        assert(tpu.take(n - 1) =~= tpu.take(n).take(n - 1));
        assert(other.take(n - 1) =~= other.take(n).take(n - 1));
        lemma_same_tpu_prefix(b, tpu, other, n - 1);
        assert(tpu[n - 1] == tpu.take(n)[n - 1]);
        assert(other[n - 1] == other.take(n)[n - 1]);
    }
}

/// Of the transactions that the validator forwards, a round takes in the first
/// hundred and twenty-eight while the validator leads, and the first thousand and
/// twenty-four otherwise; those behind them make no difference.
pub proof fn lemma_round_takes_first(b: BatchWorld, input: PollModel, other: PollModel)
    requires
        other == (PollModel { tpu: other.tpu, ..input }),
        ({
            let answered = b.check_slot_roll(input.progress, input.now).on_responses(
                input.responses,
                input.responses.len() as int,
            );
            let limit: int = if answered.w.b.progress.leader_state == 2 {
                128
            } else {
                1024
            };
            &&& input.tpu.len() >= limit
            &&& other.tpu.len() >= limit
            &&& input.tpu.take(limit) == other.tpu.take(limit)
        }),
    ensures
        b.poll(input) == b.poll(other),
{
    let answered = b.check_slot_roll(input.progress, input.now).on_responses(
        input.responses,
        input.responses.len() as int,
    );
    let limit: int = if answered.w.b.progress.leader_state == 2 {
        128
    } else {
        1024
    };
    let room = BatchWorld { w: answered.w.make_room(limit as nat), ..answered };
    lemma_same_tpu_prefix(room, input.tpu, other.tpu, limit);
}

proof fn lemma_scanned_known(
    b: BridgeModel,
    packets: Seq<Seq<u8>>,
    values: Seq<Option<(u64, u64)>>,
    n: int,
)
    requires
        0 <= n <= packets.len(),
    ensures
        forall|key: u64| #[trigger]
            scan_upto(b, packets, values, n).b.transactions.contains_key(key)
                ==> b.transactions.contains_key(key) || scan_upto(
                b,
                packets,
                values,
                n,
            ).keys.contains(key),
    decreases n,
{
    if n > 0 {
        lemma_scanned_known(b, packets, values, n - 1);
        let before = scan_upto(b, packets, values, n - 1);
        let scan = scan_upto(b, packets, values, n);
        assert forall|key: u64| #[trigger]
            scan.b.transactions.contains_key(key) implies b.transactions.contains_key(key)
            || scan.keys.contains(key) by {
            if before.b.transactions.contains_key(key) {
                if before.keys.contains(key) {
                    let i = before.keys.index_of(key);
                    assert(scan.keys[i] == key);
                }
            } else {
                assert(scan.keys[before.keys.len() as int] == key);
            }
        }
    }
}

/// Of a bundle that is not taken in nothing is kept: nothing new waits, and no
/// transaction is known that was not known before.
pub proof fn lemma_refused_bundle_leaves_nothing(
    w: World,
    packets: Seq<Seq<u8>>,
    values: Seq<Option<(u64, u64)>>,
)
    requires
        w.scan_bundle(packets, values).1 is None,
    ensures
        w.scan_bundle(packets, values).0.s == w.s,
        forall|key: u64| #[trigger]
            w.scan_bundle(packets, values).0.b.transactions.contains_key(key)
                ==> w.b.transactions.contains_key(key),
{
    let n = packets.len() as int;
    lemma_scanned_known(w.b, packets, values, n);
    let scan = scan_upto(w.b, packets, values, n);
    lemma_dropped_gone(scan.b, scan.keys, scan.keys.len() as int);
    let after = w.scan_bundle(packets, values).0;
    assert forall|key: u64| #[trigger] after.b.transactions.contains_key(key) implies w.b.transactions.contains_key(
    key) by {
        assert(scan.b.transactions.contains_key(key));
        if scan.keys.contains(key) {
            let i = scan.keys.index_of(key);
            assert(scan.keys[i] == key);
        }
    }
}

proof fn lemma_same_auction_prefix(
    a: AuctionWorld,
    tpu: Seq<(Seq<u8>, bool)>,
    other: Seq<(Seq<u8>, bool)>,
    scores: Seq<u64>,
    others: Seq<u64>,
    n: int,
)
    requires
        0 <= n <= tpu.len(),
        n <= other.len(),
        n <= scores.len(),
        n <= others.len(),
        tpu.take(n) == other.take(n),
        scores.take(n) == others.take(n),
    ensures
        a.on_tpu_upto(tpu, scores, n) == a.on_tpu_upto(other, others, n),
    decreases n,
{
    if n > 0 {
        assert(tpu.take(n - 1) =~= tpu.take(n).take(n - 1));
        assert(other.take(n - 1) =~= other.take(n).take(n - 1));
        assert(scores.take(n - 1) =~= scores.take(n).take(n - 1));
        assert(others.take(n - 1) =~= others.take(n).take(n - 1));
        lemma_same_auction_prefix(a, tpu, other, scores, others, n - 1);
        assert(tpu[n - 1] == tpu.take(n)[n - 1]);
        assert(other[n - 1] == other.take(n)[n - 1]);
        assert(scores[n - 1] == scores.take(n)[n - 1]);
        assert(others[n - 1] == others.take(n)[n - 1]);
    }
}

/// The same holds of the auction scheduler: what the validator forwards behind
/// the first hundred and twenty-eight, or the first thousand and twenty-four,
/// makes no difference to a round.
pub proof fn lemma_auction_round_takes_first(
    a: AuctionWorld,
    input: PollModel,
    other: PollModel,
    scores: Seq<u64>,
    others: Seq<u64>,
    update_scores: Seq<Seq<u64>>,
)
    requires
        other == (PollModel { tpu: other.tpu, ..input }),
        input.tpu.len() == scores.len(),
        other.tpu.len() == others.len(),
        ({
            let answered = a.check_slot_roll(input.progress, input.now).on_responses(
                input.responses,
                input.responses.len() as int,
            );
            let limit: int = if answered.w.b.progress.leader_state == 2 {
                128
            } else {
                1024
            };
            &&& input.tpu.len() >= limit
            &&& other.tpu.len() >= limit
            &&& input.tpu.take(limit) == other.tpu.take(limit)
            &&& scores.take(limit) == others.take(limit)
        }),
    ensures
        a.poll(input, scores, update_scores) == a.poll(other, others, update_scores),
{
    let answered = a.check_slot_roll(input.progress, input.now).on_responses(
        input.responses,
        input.responses.len() as int,
    );
    let limit: int = if answered.w.b.progress.leader_state == 2 {
        128
    } else {
        1024
    };
    let room = AuctionWorld { w: answered.w.make_room(limit as nat), ..answered };
    lemma_same_auction_prefix(room, input.tpu, other.tpu, scores, others, limit);
}

proof fn lemma_longer_tpu(b: BatchWorld, tpu: Seq<(Seq<u8>, bool)>, more: (Seq<u8>, bool), n: int)
    requires
        0 <= n <= tpu.len(),
    ensures
        b.on_tpu_upto(tpu.push(more), n) == b.on_tpu_upto(tpu, n),
    decreases n,
{
    if n > 0 {
        lemma_longer_tpu(b, tpu, more, n - 1);
        assert(tpu.push(more)[n - 1] == tpu[n - 1]);
    }
}

/// As long as there is room and a round takes in more, one more transaction that
/// the validator forwards is taken in after all others. The batch scheduler.
pub proof fn lemma_one_more_taken_in(
    b: BatchWorld,
    tpu: Seq<(Seq<u8>, bool)>,
    more: (Seq<u8>, bool),
    limit: int,
)
    requires
        tpu.len() < limit,
        b.w.s.unchecked.len() + tpu.len() + 1 <= b.w.s.unchecked_capacity,
    ensures
        b.drain_tpu(tpu.push(more), limit) == b.drain_tpu(tpu, limit).on_tpu(more.0, more.1),
{
    let n = tpu.len() as int;
    let roomy = BatchWorld { w: b.w.make_room(n as nat), ..b };
    assert(b.w.make_room((n + 1) as nat) == b.w.make_room(n as nat));
    lemma_longer_tpu(roomy, tpu, more, n);
    assert(tpu.push(more)[n] == more);
}

proof fn lemma_longer_auction_tpu(
    a: AuctionWorld,
    tpu: Seq<(Seq<u8>, bool)>,
    more: (Seq<u8>, bool),
    scores: Seq<u64>,
    score: u64,
    n: int,
)
    requires
        0 <= n <= tpu.len(),
        n <= scores.len(),
    ensures
        a.on_tpu_upto(tpu.push(more), scores.push(score), n) == a.on_tpu_upto(tpu, scores, n),
    decreases n,
{
    if n > 0 {
        lemma_longer_auction_tpu(a, tpu, more, scores, score, n - 1);
        assert(tpu.push(more)[n - 1] == tpu[n - 1]);
        assert(scores.push(score)[n - 1] == scores[n - 1]);
    }
}

/// As long as there is room and a round takes in more, one more transaction that
/// the validator forwards is taken in after all others. The auction scheduler.
pub proof fn lemma_auction_one_more_taken_in(
    a: AuctionWorld,
    tpu: Seq<(Seq<u8>, bool)>,
    more: (Seq<u8>, bool),
    scores: Seq<u64>,
    score: u64,
    limit: int,
)
    requires
        tpu.len() < limit,
        tpu.len() == scores.len(),
        a.w.s.unchecked.len() + tpu.len() + 1 <= a.w.s.unchecked_capacity,
    ensures
        a.drain_tpu(tpu.push(more), scores.push(score), limit) == a.drain_tpu(
            tpu,
            scores,
            limit,
        ).on_tpu(more.0, more.1, score),
{
    let n = tpu.len() as int;
    let roomy = AuctionWorld { w: a.w.make_room(n as nat), ..a };
    assert(a.w.make_room((n + 1) as nat) == a.w.make_room(n as nat));
    lemma_longer_auction_tpu(roomy, tpu, more, scores, score, n);
    assert(tpu.push(more)[n] == more);
    assert(scores.push(score)[n] == score);
}

/// A scheduler that starts holds nothing and refuses, beside what it is told to,
/// whatever names the tip payment program.
pub proof fn lemma_starts_empty(
    s: CoreModel,
    args: crate::scheduler_model::CoreArgs,
    builder: crate::jito::BuilderConfig,
    events: Option<crate::events::EventEmitter>,
    tracks_queue: bool,
    now: u64,
    fields: FieldsModel,
)
    requires
        s.started(args, builder, events, tracks_queue, now),
        exists|i: int|
            0 <= i < fields.account_keys.len() && (args.filter_keys@.contains(
                #[trigger] fields.account_keys[i],
            ) || fields.account_keys[i].bytes == crate::accounts::TIP_PAYMENT_PROGRAM),
    ensures
        names_filtered(fields, s.filter_keys),
        s.unchecked.len() == 0 && s.checked.len() == 0 && s.bundles.len() == 0 && s.deferred.len()
            == 0 && s.executing.dom().len() == 0 && s.in_flight_cus == 0,
        s.unchecked_capacity == args.unchecked_capacity,
        s.checked_capacity == args.checked_capacity,
        s.bundle_capacity == args.bundle_capacity,
        s.runtime == args.runtime,
        s.identity == args.identity,
        s.tip_distribution_config == args.tip,
        s.tip_config is None,
        s.last_progress_time == now,
{
    let i = choose|i: int|
        0 <= i < fields.account_keys.len() && (args.filter_keys@.contains(
            #[trigger] fields.account_keys[i],
        ) || fields.account_keys[i].bytes == crate::accounts::TIP_PAYMENT_PROGRAM);
    assert(s.filter_keys.contains(fields.account_keys[i]));
}

proof fn lemma_longer_updates(
    b: BatchWorld,
    updates: Seq<UpdateModel>,
    more: UpdateModel,
    now: u64,
    n: int,
)
    requires
        0 <= n <= updates.len(),
    ensures
        b.on_updates(updates.push(more), now, n) == b.on_updates(updates, now, n),
    decreases n,
{
    if n > 0 {
        lemma_longer_updates(b, updates, more, now, n - 1);
        assert(updates.push(more)[n - 1] == updates[n - 1]);
    }
}

/// Whatever the block engine sends last is taken in last, after all else that
/// arrived in the round. The batch scheduler.
pub proof fn lemma_one_more_update(b: BatchWorld, input: PollModel, more: UpdateModel)
    ensures
        b.take_in(PollModel { updates: input.updates.push(more), ..input }).0 == b.take_in(
            input,
        ).0.on_update(more, input.now),
{
    let answered = b.check_slot_roll(input.progress, input.now).on_responses(
        input.responses,
        input.responses.len() as int,
    );
    let drained = answered.drain_tpu(
        input.tpu,
        crate::worker::round_limit(answered.is_leader()),
    );
    let fresh = BatchWorld { w: drained.w.drop_expired_bundles(input.now), ..drained };
    let n = input.updates.len() as int;
    lemma_longer_updates(fresh, input.updates, more, input.now, n);
    assert(input.updates.push(more)[n] == more);
}

proof fn lemma_longer_auction_updates(
    a: AuctionWorld,
    updates: Seq<UpdateModel>,
    more: UpdateModel,
    scores: Seq<Seq<u64>>,
    bids: Seq<u64>,
    now: u64,
    n: int,
)
    requires
        0 <= n <= updates.len(),
        n <= scores.len(),
    ensures
        a.on_updates(updates.push(more), scores.push(bids), now, n) == a.on_updates(
            updates,
            scores,
            now,
            n,
        ),
    decreases n,
{
    if n > 0 {
        lemma_longer_auction_updates(a, updates, more, scores, bids, now, n - 1);
        assert(updates.push(more)[n - 1] == updates[n - 1]);
        assert(scores.push(bids)[n - 1] == scores[n - 1]);
    }
}

/// Whatever the block engine sends last is taken in last, after all else that
/// arrived in the round. The auction scheduler.
pub proof fn lemma_auction_one_more_update(
    a: AuctionWorld,
    input: PollModel,
    scores: Seq<u64>,
    update_scores: Seq<Seq<u64>>,
    more: UpdateModel,
    bids: Seq<u64>,
)
    requires
        input.updates.len() == update_scores.len(),
    ensures
        a.take_in(
            PollModel { updates: input.updates.push(more), ..input },
            scores,
            update_scores.push(bids),
        ).0 == a.take_in(input, scores, update_scores).0.on_update(more, bids, input.now),
{
    let answered = a.begin_round(input.progress, input.now, input.responses);
    let drained = answered.drain_tpu(
        input.tpu,
        scores,
        crate::worker::round_limit(answered.is_leader()),
    );
    let fresh = AuctionWorld { w: drained.w.drop_expired_bundles(input.now), ..drained };
    let n = input.updates.len() as int;
    lemma_longer_auction_updates(fresh, input.updates, more, update_scores, bids, input.now, n);
    assert(input.updates.push(more)[n] == more);
    assert(update_scores.push(bids)[n] == bids);
}

} // verus!
