use std::collections::VecDeque;

use agave_feature_set::FeatureSet;
use agave_scheduler_bindings::pack_message_flags;
use agave_scheduler_bindings::pack_message_flags::execution_flags;
use agave_scheduler_bindings::worker_message_types::{
    not_included_reasons, resolve_flags, status_check_flags,
};
use sched_archive::accounts::{SYSTEM_PROGRAM, TIP_ACCOUNT_0, TIP_PAYMENT_PROGRAM};
use sched_archive::auction_scheduler::{
    calculate_priority, read_bid, score_costs, AuctionBatchConfig, AuctionBatchScheduler,
    AuctionBatchSchedulerArgs,
};
use sched_archive::batch_scheduler::RuntimeConfig;
use sched_archive::bridge::{
    Action, Bridge, ProgressMessage, ScheduleBatch, WorkerQueue, LEADER_READY, NOT_LEADER,
};
use sched_archive::costs::RuntimeState;
use sched_archive::jito::{BuilderConfig, JitoArgs, JitoUpdate, TipConfig};
use sched_archive::pubkey::Pubkey;
use sched_archive::shared::{PriorityId, BUNDLE_MARKER};
use sched_archive::tip_program::{Identity, TipDistributionArgs};
use sched_archive::tx_costs::TxCosts;
use sched_archive::worker::{
    CheckResponse, ExecutionResponse, PollInput, TpuPacket, WorkerAction, WorkerResponse,
};
use solana_compute_budget_interface::ComputeBudgetInstruction;
use solana_hash::Hash as Blockhash;
use solana_keypair::{Keypair, Signer};
use solana_message::{v0, AccountMeta, AddressLookupTableAccount, Instruction, VersionedMessage};
use solana_pubkey::Pubkey as Address;
use solana_transaction::versioned::VersionedTransaction;
use solana_transaction::Transaction;

const MOCK_PROGRESS: ProgressMessage = ProgressMessage {
    leader_state: NOT_LEADER,
    current_slot: 10,
    next_leader_slot: 11,
    remaining_cost_units: 50_000_000,
    current_slot_progress: 25,
};

const LEADER_PROGRESS: ProgressMessage =
    ProgressMessage { leader_state: LEADER_READY, ..MOCK_PROGRESS };

const LEADER_NO_BUDGET: ProgressMessage =
    ProgressMessage { remaining_cost_units: 0, ..LEADER_PROGRESS };

fn unique_address() -> Address {
    Keypair::new().pubkey()
}

fn unique_pubkey() -> Pubkey {
    Pubkey { bytes: unique_address().to_bytes() }
}

/// A scheduler with a connection to workers that answer when told to.
struct Rig {
    scheduler: AuctionBatchScheduler,
    bridge: Bridge,
    queues: Vec<VecDeque<ScheduleBatch>>,
    progress: Option<ProgressMessage>,
    tpu: Vec<TpuPacket>,
    responses: Vec<WorkerResponse>,
    updates: Vec<JitoUpdate>,
    dropped: Vec<u64>,
    /// Locks that wait, by account.
    waiting: std::collections::HashMap<Pubkey, i64>,
    now: u64,
}

impl Rig {
    fn new() -> Rig {
        Rig::with_min_score(0)
    }

    fn with_min_score(min_score: u64) -> Rig {
        let keypair = Keypair::new();
        let args = AuctionBatchSchedulerArgs {
            tip: TipDistributionArgs {
                vote_account: unique_pubkey(),
                merkle_authority: unique_pubkey(),
                commission_bps: 0,
            },
            jito: JitoArgs {
                http_rpc: String::new(),
                ws_rpc: String::new(),
                block_engine: String::new(),
            },
            keypair: Identity {
                pubkey: Pubkey { bytes: keypair.pubkey().to_bytes() },
                keypair: keypair.to_bytes(),
            },
            filter_keys: Vec::new(),
            unchecked_capacity: 64,
            checked_capacity: 64,
            bundle_capacity: 16,
            runtime: RuntimeConfig::default(),
            scoring: AuctionBatchConfig { min_score },
        };
        let builder = BuilderConfig { key: unique_pubkey(), commission: 0 };
        let runtime = RuntimeState {
            feature_set: FeatureSet::all_enabled(),
            lamports_per_signature: 5000,
            burn_percent: 50,
        };
        Rig {
            scheduler: AuctionBatchScheduler::new_with_jito(None, args, builder, 0),
            bridge: Bridge::new(runtime, vec![WorkerQueue { len: 0, capacity: 4 }; 5]),
            queues: (0..5).map(|_| VecDeque::new()).collect(),
            progress: None,
            tpu: Vec::new(),
            responses: Vec::new(),
            updates: Vec::new(),
            dropped: Vec::new(),
            waiting: std::collections::HashMap::new(),
            now: 0,
        }
    }

    /// What the auction gives at zero prices: the reward per cost unit.
    fn score(&self, packet: &[u8]) -> u64 {
        match read_bid(&self.bridge.runtime, packet) {
            Some(bid) => {
                (5_000 + bid.costs.prioritization_fee + bid.tip) * 1_000_000 / bid.costs.total_cost
            }
            None => 0,
        }
    }

    fn queue_progress(&mut self, progress: ProgressMessage) {
        self.progress = Some(progress);
    }

    fn queue_tpu(&mut self, tx: &VersionedTransaction) {
        self.tpu.push(TpuPacket { packet: serialize_tx(tx), simple_vote: false });
    }

    fn send(&mut self, update: JitoUpdate) {
        self.updates.push(update);
    }

    fn send_tip_config(&mut self) {
        self.send(JitoUpdate::TipConfig(TipConfig {
            tip_receiver: unique_pubkey(),
            block_builder: unique_pubkey(),
        }));
    }

    fn poll(&mut self) {
        self.now += 1_000_000;
        let input = PollInput {
            progress: self.progress.take(),
            now: self.now,
            responses: std::mem::take(&mut self.responses),
            tpu: std::mem::take(&mut self.tpu),
            updates: std::mem::take(&mut self.updates),
        };
        let tpu_scores: Vec<u64> = input.tpu.iter().map(|t| self.score(&t.packet)).collect();
        let update_scores: Vec<Vec<u64>> = input
            .updates
            .iter()
            .map(|update| match update {
                JitoUpdate::Packet(packet) => vec![self.score(packet)],
                JitoUpdate::Bundle(bundle) => bundle.iter().map(|p| self.score(p)).collect(),
                _ => vec![],
            })
            .collect();
        self.scheduler.poll(&mut self.bridge, input, &tpu_scores, &update_scores);
        for action in self.bridge.take_actions() {
            match action {
                Action::Schedule { batch } => self.queues[batch.worker].push_back(batch),
                Action::Queue { locks } => {
                    for (account, _) in locks {
                        *self.waiting.entry(account).or_insert(0) += 1;
                    }
                }
                Action::Dequeue { locks } => {
                    for (account, _) in locks {
                        *self.waiting.entry(account).or_insert(0) -= 1;
                    }
                }
                Action::Drop { key } => self.dropped.push(key),
                _ => {}
            }
        }
    }

    fn pop_schedule(&mut self) -> Option<ScheduleBatch> {
        for (worker, queue) in self.queues.iter_mut().enumerate() {
            if let Some(batch) = queue.pop_front() {
                self.bridge.workers[worker].len -= 1;
                return Some(batch);
            }
        }
        None
    }

    fn check_ok() -> CheckResponse {
        CheckResponse {
            parsing_and_sanitization_flags: 0,
            status_check_flags: status_check_flags::REQUESTED | status_check_flags::PERFORMED,
            fee_payer_balance_flags: 3,
            resolve_flags: resolve_flags::REQUESTED | resolve_flags::PERFORMED,
        }
    }

    fn queue_check_response(
        &mut self,
        batch: &ScheduleBatch,
        index: usize,
        keys: Option<Vec<Pubkey>>,
        response: CheckResponse,
    ) {
        self.responses.push(WorkerResponse {
            meta: batch.transactions[index].meta,
            response: WorkerAction::Check(response, keys),
        });
    }

    fn queue_check_response_ok(&mut self, batch: &ScheduleBatch, index: usize) {
        self.queue_check_response(batch, index, None, Rig::check_ok());
    }

    fn queue_all_checks_ok(&mut self) {
        while let Some(batch) = self.pop_schedule() {
            assert_eq!(batch.flags & 1, pack_message_flags::CHECK);
            for i in 0..batch.transactions.len() {
                self.queue_check_response_ok(&batch, i);
            }
        }
    }

    fn queue_execute_response(&mut self, batch: &ScheduleBatch, index: usize, reason: u8) {
        self.responses.push(WorkerResponse {
            meta: batch.transactions[index].meta,
            response: WorkerAction::Execute(ExecutionResponse {
                execution_slot: self.bridge.progress.current_slot,
                not_included_reason: reason,
            }),
        });
    }

    fn queue_unprocessed_response(&mut self, batch: &ScheduleBatch, index: usize) {
        self.responses.push(WorkerResponse {
            meta: batch.transactions[index].meta,
            response: WorkerAction::Unprocessed,
        });
    }

    fn tx_count(&self) -> usize {
        self.bridge.transactions.len()
    }

    fn contains_tx(&self, key: u64) -> bool {
        self.bridge.transactions.contains_key(&key)
    }

    fn unchecked_len(&self) -> usize {
        self.scheduler.core.unchecked_tx.len()
    }

    fn checked_len(&self) -> usize {
        self.scheduler.core.checked_tx.items.len()
    }

    fn checked(&self, key: u64) -> bool {
        self.scheduler.core.checked_tx.items.iter().any(|id| id.key == key)
    }

    fn deferred_len(&self) -> usize {
        self.scheduler.core.deferred_tx.len()
    }

    fn deferred(&self, key: u64) -> bool {
        self.scheduler.core.deferred_tx.iter().any(|id| id.2 == key)
    }

    fn executing(&self, key: u64) -> bool {
        self.scheduler.core.executing_tx.contains_key(&key)
    }

    fn bundles_len(&self) -> usize {
        self.scheduler.core.bundles.items.len()
    }

    /// In how many places a transaction is held.
    fn places(&self, key: u64) -> usize {
        let core = &self.scheduler.core;
        core.unchecked_tx.iter().filter(|t| t.2 == key).count()
            + core.checked_tx.items.iter().filter(|id| id.key == key).count()
            + core.deferred_tx.iter().filter(|t| t.2 == key).count()
            + usize::from(core.executing_tx.contains_key(&key))
            + core.bundles.items.iter().flat_map(|b| &b.keys).filter(|k| **k == key).count()
    }

    /// Each transaction is in one place, or in a message of the check worker.
    fn assert_in_order(&self, in_check: &[u64]) {
        for key in self.bridge.transactions.keys() {
            let places = self.places(*key);
            assert!(places == 1 || (places == 0 && in_check.contains(key)), "{key}: {places}");
        }
        for key in 0..self.bridge.next_key {
            assert!(self.places(key) == 0 || self.contains_tx(key));
        }
        self.assert_locks_exact();
    }

    /// Each account is locked for the executing transactions that need it.
    fn assert_locks_exact(&self) {
        let table = &self.scheduler.auction_engine.lock_manager().account_locks;
        let mut locked = Vec::new();
        for (account, lockers) in table.keys.items.iter().zip(&table.values) {
            assert!(!lockers.is_empty());
            locked.extend(lockers.writers.iter().map(|key| (*key, account.bytes, true)));
            locked.extend(lockers.readers.iter().map(|key| (*key, account.bytes, false)));
        }
        let mut needed = Vec::new();
        for key in self.scheduler.core.executing_tx.keys() {
            let locks = self.bridge.locks(*key);
            needed.extend(locks.iter().map(|(account, writable)| (*key, account.bytes, *writable)));
        }
        locked.sort();
        needed.sort();
        assert_eq!(locked, needed);
    }

    fn skip_tips(&mut self) {
        let tip0 = self.pop_schedule().unwrap();
        assert_ne!(tip0.flags & pack_message_flags::EXECUTE, 0);
        let tip1 = self.pop_schedule().unwrap();
        assert_ne!(tip1.flags & pack_message_flags::EXECUTE, 0);
    }

    fn drain_schedules(&mut self) {
        while self.pop_schedule().is_some() {}
    }
}

fn serialize_tx(tx: &VersionedTransaction) -> Vec<u8> {
    bincode::serialize(tx).unwrap()
}

fn signed(payer: &Keypair, instructions: &[Instruction]) -> VersionedTransaction {
    Transaction::new_signed_with_payer(
        instructions,
        Some(&payer.pubkey()),
        &[payer],
        Blockhash::new_from_array([1; 32]),
    )
    .into()
}

fn noop_with_budget(payer: &Keypair, cu_limit: u32, cu_price: u64) -> VersionedTransaction {
    signed(
        payer,
        &[
            ComputeBudgetInstruction::set_compute_unit_limit(cu_limit),
            ComputeBudgetInstruction::set_compute_unit_price(cu_price),
        ],
    )
}

fn call_with_budget(
    payer: &Keypair,
    cu_limit: u32,
    cu_price: u64,
    program_id: Address,
    accounts: Vec<AccountMeta>,
) -> VersionedTransaction {
    signed(
        payer,
        &[
            ComputeBudgetInstruction::set_compute_unit_limit(cu_limit),
            ComputeBudgetInstruction::set_compute_unit_price(cu_price),
            Instruction { program_id, accounts, data: vec![] },
        ],
    )
}

fn noop_with_lookup_table(payer: &Keypair, cu_limit: u32, cu_price: u64) -> VersionedTransaction {
    let to_key = unique_address();
    let ix = Instruction {
        program_id: unique_address(),
        accounts: vec![AccountMeta::new(to_key, false)],
        data: vec![],
    };
    let message = VersionedMessage::V0(
        v0::Message::try_compile(
            &payer.pubkey(),
            &[
                ComputeBudgetInstruction::set_compute_unit_limit(cu_limit),
                ComputeBudgetInstruction::set_compute_unit_price(cu_price),
                ix,
            ],
            &[AddressLookupTableAccount { key: unique_address(), addresses: vec![to_key] }],
            Blockhash::new_from_array([1; 32]),
        )
        .unwrap(),
    );
    VersionedTransaction::try_new(message, &[payer]).unwrap()
}

fn write_call(payer: &Keypair, cu_price: u64, account: Address) -> VersionedTransaction {
    call_with_budget(
        payer,
        25_000,
        cu_price,
        unique_address(),
        vec![AccountMeta::new(account, false)],
    )
}

fn tip_program_call(payer: &Keypair) -> VersionedTransaction {
    call_with_budget(payer, 25_000, 100, Address::new_from_array(TIP_PAYMENT_PROGRAM), vec![])
}

fn setup_executing_tx(cu_limit: u32, cu_price: u64) -> (Rig, ScheduleBatch) {
    let mut rig = Rig::new();

    // Ingest a TX.
    let payer = Keypair::new();
    rig.queue_tpu(&noop_with_budget(&payer, cu_limit, cu_price));

    // Poll - ingest & schedule checks.
    rig.queue_progress(MOCK_PROGRESS);
    rig.poll();

    // Complete checks.
    rig.queue_all_checks_ok();
    rig.queue_progress(MOCK_PROGRESS);
    rig.poll();
    assert_eq!(rig.checked_len(), 1);

    // Provide tip config before becoming leader.
    rig.send_tip_config();
    rig.queue_progress(MOCK_PROGRESS);
    rig.poll();

    // Transition to leader.
    rig.queue_progress(LEADER_PROGRESS);
    rig.poll();

    // Skip past the become-tip-receiver batches.
    rig.skip_tips();

    // Pop the user TX execute batch.
    let exec_batch = rig.pop_schedule().unwrap();
    assert_eq!(exec_batch.flags, pack_message_flags::EXECUTE);
    assert_eq!(exec_batch.transactions.len(), 1);
    assert_eq!(rig.checked_len(), 0);
    assert!(rig.executing(exec_batch.transactions[0].key));

    (rig, exec_batch)
}

#[test]
fn lib_tpu_recv_schedules_check() {
    let mut rig = Rig::new();

    let payer = Keypair::new();
    rig.queue_tpu(&noop_with_lookup_table(&payer, 25_000, 1000));

    rig.queue_progress(MOCK_PROGRESS);
    rig.poll();

    let batch = rig.pop_schedule().unwrap();
    assert_eq!(batch.flags & 1, pack_message_flags::CHECK);
    assert_eq!(batch.transactions.len(), 1);
}

#[test]
fn lib_check_ok_moves_to_checked() {
    let mut rig = Rig::new();

    let payer = Keypair::new();
    rig.queue_tpu(&noop_with_lookup_table(&payer, 25_000, 100_000));

    rig.queue_progress(MOCK_PROGRESS);
    rig.poll();

    let check_batch = rig.pop_schedule().unwrap();
    rig.queue_check_response_ok(&check_batch, 0);

    rig.queue_progress(MOCK_PROGRESS);
    rig.poll();
    assert_eq!(rig.checked_len(), 1);
}

#[test]
fn test_jito_bundle_pricing_atomic() {
    let mut rig = Rig::new();

    let payer1 = Keypair::new();
    let payer2 = Keypair::new();

    // 1. Queue a low-paying bundle.
    let tx_low1 = noop_with_budget(&payer1, 25_000, 10);
    let tx_low2 = noop_with_budget(&payer2, 25_000, 10);
    rig.send(JitoUpdate::Bundle(vec![serialize_tx(&tx_low1), serialize_tx(&tx_low2)]));

    rig.queue_progress(MOCK_PROGRESS);
    rig.poll();
    assert_eq!(rig.bundles_len(), 1, "Low paying bundle should be accepted on ingestion");
    let low_priority = rig.scheduler.core.bundles.items[0].priority;
    assert!(low_priority > 0, "Low paying bundle priority ({}) should be positive", low_priority);

    // 2. Queue a high-paying bundle (accepted and stored)
    let tx_high1 = noop_with_budget(&payer1, 25_000, 5000);
    let tx_high2 = noop_with_budget(&payer2, 25_000, 5000);
    rig.send(JitoUpdate::Bundle(vec![serialize_tx(&tx_high1), serialize_tx(&tx_high2)]));

    rig.poll();
    assert_eq!(rig.bundles_len(), 2, "Both bundles should be successfully ingested");

    let first = rig.scheduler.core.bundles.items[0].priority;
    let second = rig.scheduler.core.bundles.items[1].priority;
    assert!(
        second > first,
        "High paying bundle ({}) should have higher priority than low paying bundle ({})",
        second,
        first
    );
}

#[test]
fn test_deferred_tx_drained_on_slot_roll() {
    let (mut rig, exec_batch) = setup_executing_tx(25_000, 100);
    let tx_key = exec_batch.transactions[0].key;

    // Queue a retryable error that defers the TX.
    rig.queue_execute_response(
        &exec_batch,
        0,
        not_included_reasons::WOULD_EXCEED_MAX_BLOCK_COST_LIMIT,
    );

    // Poll to drain the response - TX moves to deferred.
    rig.queue_progress(LEADER_PROGRESS);
    rig.poll();
    assert!(rig.deferred(tx_key));

    // Roll to the next slot.
    rig.queue_progress(ProgressMessage {
        current_slot: MOCK_PROGRESS.current_slot + 1,
        ..MOCK_PROGRESS
    });
    rig.poll();

    // Deferred TX drained back to checked.
    assert_eq!(rig.deferred_len(), 0);
    assert!(rig.checked(tx_key));
    assert!(rig.contains_tx(tx_key));
}

#[test]
fn test_unchecked_tpu_eviction_exceeds_capacity() {
    let mut rig = Rig::new();
    rig.scheduler.core.unchecked_capacity = 2;

    // Queue 5 transactions.
    for _ in 0..5 {
        let payer = Keypair::new();
        rig.queue_tpu(&noop_with_lookup_table(&payer, 25_000, 1000));
    }

    // Poll to ingest. shortfall = (0 + 5) - 2 = 3.
    rig.queue_progress(MOCK_PROGRESS);
    rig.poll();

    assert!(rig.unchecked_len() <= 2);
    assert_eq!(rig.scheduler.core.slot_stats.ingest_tpu_evict, 3);
}

#[test]
fn independent_transactions_share_a_message() {
    let mut rig = Rig::new();
    let hot = unique_address();
    let payers: Vec<Keypair> = (0..4).map(|_| Keypair::new()).collect();
    // Two write the same account, two are independent.
    rig.queue_tpu(&write_call(&payers[0], 900_000, hot));
    rig.queue_tpu(&write_call(&payers[1], 800_000, hot));
    rig.queue_tpu(&noop_with_budget(&payers[2], 25_000, 700_000));
    rig.queue_tpu(&noop_with_budget(&payers[3], 25_000, 600_000));
    rig.send_tip_config();
    rig.queue_progress(MOCK_PROGRESS);
    rig.poll();
    assert_eq!(rig.checked_len(), 4);
    assert_eq!(rig.waiting[&Pubkey { bytes: hot.to_bytes() }], 2);

    rig.queue_progress(LEADER_PROGRESS);
    rig.poll();
    rig.skip_tips();
    let batch = rig.pop_schedule().unwrap();
    assert_eq!(batch.flags, pack_message_flags::EXECUTE);
    assert_eq!(batch.transactions.len(), 3);
    // From the highest priority down.
    assert!(batch.transactions[0].meta.priority > batch.transactions[1].meta.priority);
    assert!(batch.transactions[1].meta.priority > batch.transactions[2].meta.priority);
    // The one that conflicts waits.
    assert_eq!(rig.checked_len(), 1);
    assert!(rig.pop_schedule().is_none());
    assert_eq!(rig.waiting[&Pubkey { bytes: hot.to_bytes() }], 1);

    // Once the first is done, it goes.
    rig.queue_execute_response(&batch, 0, not_included_reasons::NONE);
    rig.queue_progress(LEADER_PROGRESS);
    rig.poll();
    assert_eq!(rig.checked_len(), 0);
    assert_eq!(rig.waiting[&Pubkey { bytes: hot.to_bytes() }], 0);
}

#[test]
fn a_message_holds_at_most_thirty_two_transactions() {
    let mut rig = Rig::new();
    for _ in 0..40 {
        rig.queue_tpu(&noop_with_budget(&Keypair::new(), 25_000, 100));
    }
    rig.send_tip_config();
    rig.queue_progress(MOCK_PROGRESS);
    rig.poll();
    assert_eq!(rig.checked_len(), 40);
    rig.queue_progress(LEADER_PROGRESS);
    rig.poll();
    rig.skip_tips();
    assert_eq!(rig.pop_schedule().unwrap().transactions.len(), 32);
    assert_eq!(rig.pop_schedule().unwrap().transactions.len(), 8);
}

#[test]
fn a_blocked_transaction_lets_a_bundle_through() {
    let mut rig = Rig::new();
    let hot = unique_address();
    // The transaction of highest priority executes and holds the account.
    rig.queue_tpu(&write_call(&Keypair::new(), 900_000, hot));
    rig.queue_tpu(&write_call(&Keypair::new(), 800_000, hot));
    let bundle_tx = noop_with_budget(&Keypair::new(), 25_000, 100);
    rig.send(JitoUpdate::Bundle(vec![serialize_tx(&bundle_tx)]));
    rig.send_tip_config();
    rig.queue_progress(MOCK_PROGRESS);
    rig.poll();
    rig.queue_progress(LEADER_PROGRESS);
    rig.poll();
    rig.skip_tips();
    let first = rig.pop_schedule().unwrap();
    assert_eq!(first.flags, pack_message_flags::EXECUTE);
    assert_eq!(first.transactions.len(), 1);
    // The second transaction beats the bundle but is blocked.
    let second = rig.pop_schedule().unwrap();
    assert_eq!(
        second.flags,
        pack_message_flags::EXECUTE
            | execution_flags::DROP_ON_FAILURE
            | execution_flags::ALL_OR_NOTHING
    );
    assert_eq!(second.transactions[0].meta.priority, BUNDLE_MARKER);
    assert_eq!(rig.bundles_len(), 0);
    assert_eq!(rig.checked_len(), 1);
}

#[test]
fn a_bundle_that_conflicts_with_itself_takes_no_locks() {
    let mut rig = Rig::new();
    let hot = unique_address();
    let a = write_call(&Keypair::new(), 100, hot);
    let b = write_call(&Keypair::new(), 100, hot);
    rig.send(JitoUpdate::Bundle(vec![serialize_tx(&a), serialize_tx(&b)]));
    rig.send_tip_config();
    rig.queue_progress(MOCK_PROGRESS);
    rig.poll();
    rig.queue_progress(LEADER_PROGRESS);
    rig.poll();
    rig.skip_tips();
    let held = rig.scheduler.auction_engine.lock_manager.tracked_accounts();
    assert!(rig.pop_schedule().is_none());
    assert_eq!(rig.bundles_len(), 1);
    rig.queue_progress(LEADER_PROGRESS);
    rig.poll();
    assert_eq!(rig.scheduler.auction_engine.lock_manager.tracked_accounts(), held);
}

#[test]
fn bundles_below_the_minimum_score_are_refused() {
    let mut rig = Rig::with_min_score(u64::MAX - 1);
    let tx = noop_with_budget(&Keypair::new(), 25_000, 100);
    rig.send(JitoUpdate::Bundle(vec![serialize_tx(&tx)]));
    rig.poll();
    assert_eq!(rig.bundles_len(), 0);
    assert_eq!(rig.tx_count(), 0);
}

#[test]
fn bundles_with_filtered_accounts_are_refused() {
    let mut rig = Rig::new();
    let tx = noop_with_budget(&Keypair::new(), 25_000, 100);
    let filtered = tip_program_call(&Keypair::new());
    rig.send(JitoUpdate::Bundle(vec![serialize_tx(&tx), serialize_tx(&filtered)]));
    rig.send(JitoUpdate::Packet(serialize_tx(&filtered)));
    rig.queue_tpu(&filtered);
    rig.poll();
    assert_eq!(rig.bundles_len(), 0);
    assert_eq!(rig.checked_len(), 0);
    assert_eq!(rig.tx_count(), 0);
    assert_eq!(rig.scheduler.core.slot_stats.ingest_tpu_filtered, 1);
    assert_eq!(rig.scheduler.core.slot_stats.ingest_custom_filtered, 1);
}

#[test]
fn only_higher_priority_finds_a_place() {
    let mut rig = Rig::new();
    rig.scheduler.core.checked_capacity = 1;
    rig.queue_tpu(&noop_with_budget(&Keypair::new(), 25_000, 500_000));
    rig.poll();
    let first = rig.scheduler.core.checked_tx.items[0];

    // Lower: refused.
    rig.queue_tpu(&noop_with_budget(&Keypair::new(), 25_000, 100));
    rig.poll();
    assert_eq!(rig.scheduler.core.checked_tx.items, vec![first]);
    assert_eq!(rig.tx_count(), 1);

    // Higher: replaces the lowest.
    rig.send(JitoUpdate::Packet(serialize_tx(&noop_with_budget(
        &Keypair::new(),
        25_000,
        900_000,
    ))));
    rig.poll();
    assert_eq!(rig.checked_len(), 1);
    assert!(rig.scheduler.core.checked_tx.items[0].priority > first.priority);
    assert!(rig.dropped.contains(&first.key));
    assert_eq!(rig.scheduler.core.slot_stats.check_evict, 2);
}

#[test]
fn a_silent_validator_is_given_more_time() {
    let mut rig = Rig::new();
    rig.queue_progress(MOCK_PROGRESS);
    rig.poll();
    let noted = rig.scheduler.core.last_progress_time;
    rig.now = noted + 5_000_000_000 - 1_000_000 - 1;
    rig.poll();
    assert_eq!(rig.scheduler.core.last_progress_time, noted);
    rig.poll();
    assert_eq!(rig.scheduler.core.last_progress_time, rig.now);
}

#[test]
fn effective_remaining_units_exclude_what_is_in_flight() {
    let (rig, exec_batch) = setup_executing_tx(25_000, 100);
    assert_eq!(
        rig.scheduler.effective_remaining_cu(&rig.bridge),
        50_000_000 - exec_batch.transactions[0].meta.cost
    );
}

#[test]
fn a_bid_names_costs_locks_and_tip() {
    let rig = Rig::new();
    let payer = Keypair::new();
    let mut data = vec![2, 0, 0, 0];
    data.extend_from_slice(&12_345u64.to_le_bytes());
    let tip_account = Address::new_from_array(TIP_ACCOUNT_0);
    let tx = signed(
        &payer,
        &[
            ComputeBudgetInstruction::set_compute_unit_limit(25_000),
            ComputeBudgetInstruction::set_compute_unit_price(1_000_000),
            Instruction {
                program_id: Address::new_from_array(SYSTEM_PROGRAM),
                accounts: vec![
                    AccountMeta::new(payer.pubkey(), true),
                    AccountMeta::new(tip_account, false),
                ],
                data,
            },
        ],
    );
    let bid = read_bid(&rig.bridge.runtime, &serialize_tx(&tx)).unwrap();
    assert_eq!(bid.tip, 12_345);
    assert_eq!(bid.costs.prioritization_fee, 25_000);
    assert_eq!(bid.costs.compute_unit_limit, 25_000);
    assert_eq!(bid.locks[0], (Pubkey { bytes: payer.pubkey().to_bytes() }, true));
    assert_eq!(bid.locks[1], (Pubkey { bytes: TIP_ACCOUNT_0 }, true));
    assert!(bid.locks.contains(&(Pubkey { bytes: SYSTEM_PROGRAM }, false)));
    assert!(read_bid(&rig.bridge.runtime, &[1, 2, 3]).is_none());
}

#[test]
fn unprocessed_transactions_wait_again() {
    let (mut rig, exec_batch) = setup_executing_tx(25_000, 100);
    let meta: PriorityId = exec_batch.transactions[0].meta;
    rig.queue_unprocessed_response(&exec_batch, 0);
    rig.queue_progress(MOCK_PROGRESS);
    rig.poll();
    assert_eq!(rig.scheduler.core.checked_tx.items, vec![meta]);
    assert_eq!(rig.scheduler.core.in_flight_cus, 0);
    assert!(rig.scheduler.auction_engine.lock_manager.tracked_accounts() > 0); // tips
}

#[test]
fn every_transaction_of_the_auction_is_in_one_place() {
    let mut rig = Rig::new();
    for price in 1..=6 {
        rig.queue_tpu(&noop_with_lookup_table(&Keypair::new(), 25_000, price * 10));
    }
    let bundle = vec![
        serialize_tx(&noop_with_budget(&Keypair::new(), 25_000, 50)),
        serialize_tx(&noop_with_budget(&Keypair::new(), 25_000, 60)),
    ];
    rig.send(JitoUpdate::Bundle(bundle));
    rig.send(JitoUpdate::Packet(serialize_tx(&noop_with_lookup_table(&Keypair::new(), 25_000, 70))));
    rig.send_tip_config();
    rig.queue_progress(MOCK_PROGRESS);
    rig.poll();
    let checks = rig.pop_schedule().unwrap();
    let in_check: Vec<u64> = checks.transactions.iter().map(|tx| tx.key).collect();
    assert_eq!(in_check.len(), 7);
    rig.assert_in_order(&in_check);

    // All but the first pass.
    let failed = CheckResponse {
        status_check_flags: status_check_flags::REQUESTED
            | status_check_flags::PERFORMED
            | status_check_flags::ALREADY_PROCESSED,
        ..Rig::check_ok()
    };
    rig.queue_check_response(&checks, 0, None, failed);
    for i in 1..7 {
        rig.queue_check_response_ok(&checks, i);
    }
    rig.queue_progress(MOCK_PROGRESS);
    rig.poll();
    assert!(!rig.contains_tx(in_check[0]));
    assert_eq!(rig.tx_count(), 8);
    rig.assert_in_order(&[]);

    // As leader, everything that can be started executes.
    rig.queue_progress(LEADER_PROGRESS);
    rig.poll();
    rig.assert_in_order(&[]);

    // Workers answer in all ways; the next slot restores what was deferred.
    let reasons = [
        not_included_reasons::NONE,
        not_included_reasons::ACCOUNT_IN_USE,
        not_included_reasons::WOULD_EXCEED_MAX_BLOCK_COST_LIMIT,
    ];
    let mut answered = 0;
    while let Some(batch) = rig.pop_schedule() {
        if batch.flags & 1 == pack_message_flags::CHECK {
            continue;
        }
        for i in 0..batch.transactions.len() {
            if answered % 4 == 3 {
                rig.queue_unprocessed_response(&batch, i);
            } else {
                rig.queue_execute_response(&batch, i, reasons[answered % 4]);
            }
            answered += 1;
        }
    }
    assert!(answered > 3);
    rig.queue_progress(LEADER_NO_BUDGET);
    rig.poll();
    rig.assert_in_order(&[]);
    rig.queue_progress(ProgressMessage { current_slot: 11, ..MOCK_PROGRESS });
    rig.poll();
    assert_eq!(rig.deferred_len(), 0);
    rig.assert_in_order(&[]);
}

#[test]
fn transactions_below_the_minimum_score_are_dropped() {
    let tx = noop_with_budget(&Keypair::new(), 25_000, 100);
    let packet = serialize_tx(&tx);
    let score = Rig::new().score(&packet);

    let mut rig = Rig::with_min_score(score + 1);
    rig.queue_tpu(&tx);
    rig.send(JitoUpdate::Packet(packet.clone()));
    rig.poll();
    assert_eq!(rig.checked_len(), 0);
    assert_eq!(rig.tx_count(), 0);
    assert_eq!(rig.dropped.len(), 2);

    let mut rig = Rig::with_min_score(score);
    rig.queue_tpu(&tx);
    rig.poll();
    assert_eq!(rig.checked_len(), 1);
    assert_eq!(rig.tx_count(), 1);

    let runtime = &rig.bridge.runtime;
    let priority = calculate_priority(runtime, &packet, score, score).unwrap();
    assert_eq!(priority.0, score);
    assert!(calculate_priority(runtime, &packet, score, score + 1).is_none());
    assert!(calculate_priority(runtime, &packet, u64::MAX, u64::MAX).is_none());
    let costs = TxCosts { prioritization_fee: 1, compute_unit_limit: 2, total_cost: 3 };
    assert_eq!(score_costs(&Some(costs), 10, 10), Some((10, 3)));
    assert_eq!(score_costs(&Some(costs), 9, 10), None);
    assert_eq!(score_costs(&None, 10, 0), None);
}

#[test]
fn starting_adds_to_what_is_in_flight() {
    let mut rig = Rig::new();
    rig.queue_tpu(&noop_with_budget(&Keypair::new(), 25_000, 100));
    let a = noop_with_budget(&Keypair::new(), 25_000, 100);
    rig.send(JitoUpdate::Bundle(vec![serialize_tx(&a)]));
    rig.poll();
    let cost = rig.scheduler.core.checked_tx.items[0].cost;
    let bundle = rig.scheduler.core.bundles.items[0].cost;
    let (left, batch) = rig.scheduler.try_schedule_transaction(cost, &mut rig.bridge, 1);
    assert_eq!(left, 0);
    assert_eq!(rig.scheduler.core.in_flight_cus, cost);
    assert!(rig.scheduler.holds_locks(&rig.bridge, batch[0].key));
    let (left, sent) = rig.scheduler.try_schedule_bundle(bundle + 5, &mut rig.bridge, 2);
    assert_eq!(left, 5);
    assert_eq!(sent.len(), 1);
    assert_eq!(rig.scheduler.core.in_flight_cus, cost + bundle);

    // An answer must name the cost that was sent.
    let mut answer = WorkerResponse { meta: batch[0].meta, response: WorkerAction::Unprocessed };
    assert!(rig.scheduler.accepts_answer(&rig.bridge, &answer));
    answer.meta.cost += 1;
    assert!(!rig.scheduler.accepts_answer(&rig.bridge, &answer));
    rig.scheduler.unlock(&rig.bridge, batch[0].key);
    assert!(!rig.scheduler.holds_locks(&rig.bridge, batch[0].key));
}

#[test]
fn no_step_touches_the_allocation() {
    let mut rig = Rig::new();
    assert!(rig.scheduler.auction_engine.cu_allocation.reserve(1_000));
    let available = rig.scheduler.auction_engine.available_cu();
    rig.queue_tpu(&noop_with_budget(&Keypair::new(), 25_000, 100));
    rig.send_tip_config();
    rig.queue_progress(MOCK_PROGRESS);
    rig.poll();
    rig.queue_progress(LEADER_PROGRESS);
    rig.poll();
    assert!(!rig.scheduler.core.executing_tx.is_empty());
    assert_eq!(rig.scheduler.auction_engine.available_cu(), available);
    assert_eq!(rig.scheduler.auction_engine.cu_allocation().tentative, 1_000);
}

#[test]
fn without_leading_what_waits_in_the_auction_stays() {
    let mut rig = Rig::new();
    rig.queue_tpu(&noop_with_budget(&Keypair::new(), 25_000, 100));
    rig.queue_progress(MOCK_PROGRESS);
    rig.poll();
    let id = rig.scheduler.core.checked_tx.items[0];
    rig.queue_tpu(&noop_with_budget(&Keypair::new(), 25_000, 200));
    rig.queue_progress(ProgressMessage { current_slot: 11, ..MOCK_PROGRESS });
    rig.poll();
    assert!(rig.scheduler.core.checked_tx.items.contains(&id));
    assert!(rig.scheduler.core.executing_tx.is_empty());

    // Without room for more, the lowest makes room for a better one.
    rig.scheduler.core.checked_capacity = 2;
    rig.queue_tpu(&noop_with_budget(&Keypair::new(), 25_000, 1_000_000));
    rig.poll();
    assert!(!rig.scheduler.core.checked_tx.items.contains(&id));
    assert_eq!(rig.checked_len(), 2);
}
