use std::collections::VecDeque;

use agave_feature_set::FeatureSet;
use agave_scheduler_bindings::pack_message_flags;
use agave_scheduler_bindings::pack_message_flags::{check_flags, execution_flags};
use agave_scheduler_bindings::worker_message_types::{
    not_included_reasons, parsing_and_sanitization_flags, resolve_flags, status_check_flags,
};
use sched_archive::accounts::TIP_PAYMENT_PROGRAM;
use sched_archive::batch_scheduler::{BatchScheduler, BatchSchedulerArgs, RuntimeConfig};
use sched_archive::bridge::{
    Action, Bridge, KeyedTransactionMeta, ProgressMessage, ScheduleBatch, WorkerQueue,
    EXECUTE_WORKER_START, LEADER_READY, NOT_LEADER,
};
use sched_archive::costs::RuntimeState;
use sched_archive::events::{Event, EventContext, EventEmitter, StampedEvent};
use sched_archive::jito::{BuilderConfig, JitoArgs, JitoUpdate, TipConfig};
use sched_archive::pubkey::Pubkey;
use sched_archive::shared::BUNDLE_MARKER;
use sched_archive::tip_program::{Identity, TipDistributionArgs};
use sched_archive::worker::{
    CheckResponse, ExecutionResponse, PollError, PollInput, TpuPacket, WorkerAction, WorkerResponse,
};
use solana_compute_budget_interface::ComputeBudgetInstruction;
use solana_hash::Hash as Blockhash;
use solana_keypair::{Keypair, Signer};
use solana_message::{AccountMeta, Instruction};
use solana_pubkey::Pubkey as Address;
use solana_transaction::versioned::VersionedTransaction;
use solana_transaction::Transaction;

const MOCK_PROGRESS: ProgressMessage = ProgressMessage {
    leader_state: NOT_LEADER,
    current_slot: 10,
    next_leader_slot: 11,
    remaining_cost_units: 50_000_000,
    current_slot_progress: 25,
};

const LEADER_PROGRESS: ProgressMessage =
    ProgressMessage { leader_state: LEADER_READY, ..MOCK_PROGRESS };

const LEADER_NO_BUDGET: ProgressMessage =
    ProgressMessage { remaining_cost_units: 0, ..LEADER_PROGRESS };

fn unique_address() -> Address {
    Keypair::new().pubkey()
}

fn unique_pubkey() -> Pubkey {
    Pubkey { bytes: unique_address().to_bytes() }
}

/// A scheduler with a connection to workers that answer when told to.
struct Rig {
    scheduler: BatchScheduler,
    bridge: Bridge,
    queues: Vec<VecDeque<ScheduleBatch>>,
    progress: Option<ProgressMessage>,
    tpu: Vec<TpuPacket>,
    responses: Vec<WorkerResponse>,
    updates: Vec<JitoUpdate>,
    events: Vec<StampedEvent>,
    dropped: Vec<u64>,
    now: u64,
}

impl Rig {
    fn new() -> Rig {
        Rig::with_events(None)
    }

    fn with_events(events: Option<EventEmitter>) -> Rig {
        let keypair = Keypair::new();
        let args = BatchSchedulerArgs {
            tip: TipDistributionArgs {
                vote_account: unique_pubkey(),
                merkle_authority: unique_pubkey(),
                commission_bps: 0,
            },
            jito: JitoArgs {
                http_rpc: String::new(),
                ws_rpc: String::new(),
                block_engine: String::new(),
            },
            keypair: Identity {
                pubkey: Pubkey { bytes: keypair.pubkey().to_bytes() },
                keypair: keypair.to_bytes(),
            },
            filter_keys: Vec::new(),
            unchecked_capacity: 64,
            checked_capacity: 64,
            bundle_capacity: 16,
            runtime: RuntimeConfig::default(),
        };
        let builder = BuilderConfig { key: unique_pubkey(), commission: 0 };
        let runtime = RuntimeState {
            feature_set: FeatureSet::all_enabled(),
            lamports_per_signature: 5000,
            burn_percent: 50,
        };
        Rig {
            scheduler: BatchScheduler::new_with_jito(events, args, builder, 0),
            bridge: Bridge::new(runtime, vec![WorkerQueue { len: 0, capacity: 4 }; 5]),
            queues: (0..5).map(|_| VecDeque::new()).collect(),
            progress: None,
            tpu: Vec::new(),
            responses: Vec::new(),
            updates: Vec::new(),
            events: Vec::new(),
            dropped: Vec::new(),
            now: 0,
        }
    }

    fn queue_progress(&mut self, progress: ProgressMessage) {
        self.progress = Some(progress);
    }

    fn queue_tpu(&mut self, tx: &VersionedTransaction) {
        self.tpu.push(TpuPacket { packet: serialize_tx(tx), simple_vote: false });
    }

    fn send(&mut self, update: JitoUpdate) {
        self.updates.push(update);
    }

    fn send_tip_config(&mut self) {
        self.send(JitoUpdate::TipConfig(TipConfig {
            tip_receiver: unique_pubkey(),
            block_builder: unique_pubkey(),
        }));
    }

    fn poll(&mut self) {
        self.now += 1_000_000;
        let input = PollInput {
            progress: self.progress.take(),
            now: self.now,
            responses: std::mem::take(&mut self.responses),
            tpu: std::mem::take(&mut self.tpu),
            updates: std::mem::take(&mut self.updates),
        };
        self.scheduler.try_poll(&mut self.bridge, input).unwrap();
        for action in self.bridge.take_actions() {
            match action {
                Action::Schedule { batch } => self.queues[batch.worker].push_back(batch),
                Action::Emit { event } => self.events.push(event),
                Action::Drop { key } => self.dropped.push(key),
                _ => {}
            }
        }
    }

    fn pop_schedule(&mut self) -> Option<ScheduleBatch> {
        for (worker, queue) in self.queues.iter_mut().enumerate() {
            if let Some(batch) = queue.pop_front() {
                self.bridge.workers[worker].len -= 1;
                return Some(batch);
            }
        }
        None
    }

    fn check_ok() -> CheckResponse {
        CheckResponse {
            parsing_and_sanitization_flags: 0,
            status_check_flags: status_check_flags::REQUESTED | status_check_flags::PERFORMED,
            fee_payer_balance_flags: 3,
            resolve_flags: resolve_flags::REQUESTED | resolve_flags::PERFORMED,
        }
    }

    fn queue_check_response(
        &mut self,
        batch: &ScheduleBatch,
        index: usize,
        keys: Option<Vec<Pubkey>>,
        response: CheckResponse,
    ) {
        self.responses.push(WorkerResponse {
            meta: batch.transactions[index].meta,
            response: WorkerAction::Check(response, keys),
        });
    }

    fn queue_check_response_ok(&mut self, batch: &ScheduleBatch, index: usize) {
        self.queue_check_response(batch, index, None, Rig::check_ok());
    }

    fn queue_all_checks_ok(&mut self) {
        while let Some(batch) = self.pop_schedule() {
            assert_eq!(batch.flags & 1, pack_message_flags::CHECK);
            for i in 0..batch.transactions.len() {
                self.queue_check_response_ok(&batch, i);
            }
        }
    }

    fn queue_execute_response(&mut self, batch: &ScheduleBatch, index: usize, reason: u8) {
        self.responses.push(WorkerResponse {
            meta: batch.transactions[index].meta,
            response: WorkerAction::Execute(ExecutionResponse {
                execution_slot: self.bridge.progress.current_slot,
                not_included_reason: reason,
            }),
        });
    }

    fn queue_unprocessed_response(&mut self, batch: &ScheduleBatch, index: usize) {
        self.responses.push(WorkerResponse {
            meta: batch.transactions[index].meta,
            response: WorkerAction::Unprocessed,
        });
    }

    fn tx_count(&self) -> usize {
        self.bridge.transactions.len()
    }

    fn contains_tx(&self, key: u64) -> bool {
        self.bridge.transactions.contains_key(&key)
    }

    fn unchecked_len(&self) -> usize {
        self.scheduler.core.unchecked_tx.len()
    }

    fn checked_len(&self) -> usize {
        self.scheduler.core.checked_tx.items.len()
    }

    fn checked(&self, key: u64) -> bool {
        self.scheduler.core.checked_tx.items.iter().any(|id| id.key == key)
    }

    fn deferred_len(&self) -> usize {
        self.scheduler.core.deferred_tx.len()
    }

    fn deferred(&self, key: u64) -> bool {
        self.scheduler.core.deferred_tx.iter().any(|id| id.2 == key)
    }

    fn executing(&self, key: u64) -> bool {
        self.scheduler.core.executing_tx.contains_key(&key)
    }

    fn bundles_len(&self) -> usize {
        self.scheduler.core.bundles.items.len()
    }

    /// In how many places a transaction is held.
    fn places(&self, key: u64) -> usize {
        let core = &self.scheduler.core;
        core.unchecked_tx.iter().filter(|t| t.2 == key).count()
            + core.checked_tx.items.iter().filter(|id| id.key == key).count()
            + core.deferred_tx.iter().filter(|t| t.2 == key).count()
            + usize::from(core.executing_tx.contains_key(&key))
            + core.bundles.items.iter().flat_map(|b| &b.keys).filter(|k| **k == key).count()
    }

    /// Each transaction is in one place, or in a message of the check worker.
    fn assert_in_order(&self, in_check: &[u64]) {
        for key in self.bridge.transactions.keys() {
            let places = self.places(*key);
            assert!(places == 1 || (places == 0 && in_check.contains(key)), "{key}: {places}");
        }
        for key in 0..self.bridge.next_key {
            assert!(self.places(key) == 0 || self.contains_tx(key));
        }
        self.assert_locks_exact();
    }

    /// Each account is locked for the executing transactions that need it.
    fn assert_locks_exact(&self) {
        let table = &self.scheduler.in_flight_locks;
        let mut locked = Vec::new();
        for (account, lockers) in table.keys.items.iter().zip(&table.values) {
            assert!(!lockers.is_empty());
            locked.extend(lockers.writers.iter().map(|key| (*key, account.bytes, true)));
            locked.extend(lockers.readers.iter().map(|key| (*key, account.bytes, false)));
        }
        let mut needed = Vec::new();
        for key in self.scheduler.core.executing_tx.keys() {
            let locks = self.bridge.locks(*key);
            needed.extend(locks.iter().map(|(account, writable)| (*key, account.bytes, *writable)));
        }
        locked.sort();
        needed.sort();
        assert_eq!(locked, needed);
    }

    fn skip_tips(&mut self) {
        let tip0 = self.pop_schedule().unwrap();
        assert_ne!(tip0.flags & pack_message_flags::EXECUTE, 0);
        let tip1 = self.pop_schedule().unwrap();
        assert_ne!(tip1.flags & pack_message_flags::EXECUTE, 0);
    }

    fn drain_schedules(&mut self) {
        while self.pop_schedule().is_some() {}
    }
}

fn serialize_tx(tx: &VersionedTransaction) -> Vec<u8> {
    bincode::serialize(tx).unwrap()
}

fn signed(payer: &Keypair, instructions: &[Instruction]) -> VersionedTransaction {
    Transaction::new_signed_with_payer(
        instructions,
        Some(&payer.pubkey()),
        &[payer],
        Blockhash::new_from_array([1; 32]),
    )
    .into()
}

fn noop_with_budget(payer: &Keypair, cu_limit: u32, cu_price: u64) -> VersionedTransaction {
    signed(
        payer,
        &[
            ComputeBudgetInstruction::set_compute_unit_limit(cu_limit),
            ComputeBudgetInstruction::set_compute_unit_price(cu_price),
        ],
    )
}

fn call_with_budget(
    payer: &Keypair,
    cu_limit: u32,
    cu_price: u64,
    program_id: Address,
    accounts: Vec<AccountMeta>,
) -> VersionedTransaction {
    signed(
        payer,
        &[
            ComputeBudgetInstruction::set_compute_unit_limit(cu_limit),
            ComputeBudgetInstruction::set_compute_unit_price(cu_price),
            Instruction { program_id, accounts, data: vec![] },
        ],
    )
}

fn tip_program_call(payer: &Keypair) -> VersionedTransaction {
    call_with_budget(payer, 25_000, 100, Address::new_from_array(TIP_PAYMENT_PROGRAM), vec![])
}

fn setup_executing_tx(cu_limit: u32, cu_price: u64) -> (Rig, ScheduleBatch) {
    let mut rig = Rig::new();

    // Ingest a TX.
    let payer = Keypair::new();
    rig.queue_tpu(&noop_with_budget(&payer, cu_limit, cu_price));

    // Poll - ingest & schedule checks.
    rig.queue_progress(MOCK_PROGRESS);
    rig.poll();

    // Complete checks.
    rig.queue_all_checks_ok();
    rig.queue_progress(MOCK_PROGRESS);
    rig.poll();
    assert_eq!(rig.checked_len(), 1);

    // Provide tip config before becoming leader.
    rig.send_tip_config();
    rig.queue_progress(MOCK_PROGRESS);
    rig.poll();

    // Transition to leader.
    rig.queue_progress(LEADER_PROGRESS);
    rig.poll();

    // Skip past the become-tip-receiver batches.
    rig.skip_tips();

    // Pop the user TX execute batch.
    let exec_batch = rig.pop_schedule().unwrap();
    assert_eq!(exec_batch.flags, pack_message_flags::EXECUTE);
    assert_eq!(exec_batch.transactions.len(), 1);
    assert_eq!(rig.checked_len(), 0);
    assert!(rig.executing(exec_batch.transactions[0].key));

    (rig, exec_batch)
}

fn setup_executing_bundle() -> (Rig, ScheduleBatch) {
    let mut rig = Rig::new();

    // Ingest a bundle.
    let payer = Keypair::new();
    let bundle_tx = noop_with_budget(&payer, 25_000, 100);
    rig.send(JitoUpdate::Bundle(vec![serialize_tx(&bundle_tx)]));

    // Provide tip config before becoming leader.
    rig.send_tip_config();
    rig.queue_progress(MOCK_PROGRESS);
    rig.poll();
    assert_eq!(rig.bundles_len(), 1);

    // Transition to leader.
    rig.queue_progress(LEADER_PROGRESS);
    rig.poll();

    // Skip past the become-tip-receiver batches.
    rig.skip_tips();

    // Pop the bundle execute batch.
    let exec_batch = rig.pop_schedule().unwrap();
    assert_ne!(exec_batch.flags & execution_flags::ALL_OR_NOTHING, 0);
    assert_eq!(exec_batch.transactions.len(), 1);
    assert_eq!(rig.bundles_len(), 0);

    (rig, exec_batch)
}

//////
// TPU

#[test]
fn tpu_recv_schedules_check() {
    let mut rig = Rig::new();

    // Ingest a transaction via TPU.
    let payer = Keypair::new();
    rig.queue_tpu(&noop_with_budget(&payer, 25_000, 100));

    // Poll the scheduler.
    rig.poll();

    // Assert - A single check request was scheduled.
    let batch = rig.pop_schedule().unwrap();
    assert_eq!(batch.flags & 1, pack_message_flags::CHECK);
    assert_eq!(
        batch.flags,
        pack_message_flags::CHECK
            | check_flags::STATUS_CHECKS
            | check_flags::LOAD_FEE_PAYER_BALANCE
            | check_flags::LOAD_ADDRESS_LOOKUP_TABLES
    );
    assert_eq!(batch.transactions.len(), 1);
    assert!(rig.pop_schedule().is_none());
}

#[test]
fn tpu_recv_filters_tip_program() {
    let mut rig = Rig::new();

    // A TX that invokes the tip payment program (should be filtered).
    let payer = Keypair::new();
    rig.queue_tpu(&tip_program_call(&payer));

    // Poll the scheduler.
    rig.poll();

    // Assert - No check scheduled (TX was filtered).
    assert!(rig.pop_schedule().is_none());

    // Assert - TX was dropped from bridge.
    assert_eq!(rig.tx_count(), 0);
}

///////////////
// Jito Packets

#[test]
fn jito_packet_schedules_check() {
    let mut rig = Rig::new();

    // Send a packet via jito channel.
    let payer = Keypair::new();
    let tx = noop_with_budget(&payer, 25_000, 100);
    rig.send(JitoUpdate::Packet(serialize_tx(&tx)));

    // Poll to drain jito messages and schedule checks.
    rig.poll();

    // Assert - A single check request was scheduled.
    let batch = rig.pop_schedule().unwrap();
    assert_eq!(batch.flags & 1, pack_message_flags::CHECK);
    assert_eq!(batch.transactions.len(), 1);
    assert!(rig.pop_schedule().is_none());
}

#[test]
fn jito_packet_filters_tip_program() {
    let mut rig = Rig::new();

    // Send a packet that invokes the tip payment program.
    let payer = Keypair::new();
    rig.send(JitoUpdate::Packet(serialize_tx(&tip_program_call(&payer))));

    // Poll to drain jito messages.
    rig.poll();

    // Assert - No check scheduled and TX dropped from bridge.
    assert!(rig.pop_schedule().is_none());
    assert_eq!(rig.tx_count(), 0);
}

///////////////
// Jito Bundles

#[test]
fn jito_bundle_ingested() {
    let mut rig = Rig::new();

    // A 2-TX bundle.
    let payer_a = Keypair::new();
    let payer_b = Keypair::new();
    let tx_a = noop_with_budget(&payer_a, 25_000, 100);
    let tx_b = noop_with_budget(&payer_b, 25_000, 200);
    rig.send(JitoUpdate::Bundle(vec![serialize_tx(&tx_a), serialize_tx(&tx_b)]));

    // Poll to drain jito messages.
    rig.poll();

    // Assert - Bundle is stored in the scheduler.
    assert_eq!(rig.bundles_len(), 1);

    // Assert - Both TXs are in the bridge.
    assert_eq!(rig.tx_count(), 2);

    // Assert - Bundles skip check; no check batches scheduled.
    assert!(rig.pop_schedule().is_none());
}

#[test]
fn jito_bundle_filters_tip_program() {
    let mut rig = Rig::new();

    // A 2-TX bundle where the second TX invokes the tip program.
    let payer_a = Keypair::new();
    let payer_b = Keypair::new();
    let tx_a = noop_with_budget(&payer_a, 25_000, 100);
    let tx_b = tip_program_call(&payer_b);
    rig.send(JitoUpdate::Bundle(vec![serialize_tx(&tx_a), serialize_tx(&tx_b)]));

    // Poll to drain jito messages.
    rig.poll();

    // Assert - Entire bundle rejected; no bundles stored.
    assert_eq!(rig.bundles_len(), 0);

    // Assert - All TXs from the bundle are dropped from bridge.
    assert_eq!(rig.tx_count(), 0);
}

#[test]
fn jito_bundle_dropped_if_any_tx_invalid() {
    let mut rig = Rig::new();

    // A bundle where the second entry is garbage bytes.
    let payer = Keypair::new();
    let tx = noop_with_budget(&payer, 25_000, 100);
    rig.send(JitoUpdate::Bundle(vec![
        serialize_tx(&tx),
        vec![0xDE, 0xAD], // invalid TX
    ]));

    // Poll to drain jito messages.
    rig.poll();

    // Assert - Entire bundle rejected.
    assert_eq!(rig.bundles_len(), 0);

    // Assert - All TXs (including the valid first one) are dropped.
    assert_eq!(rig.tx_count(), 0);
}

///////////////////
// Validation flow

#[test]
fn check_ok_moves_to_checked() {
    let mut rig = Rig::new();

    // Ingest a transaction via TPU.
    let payer = Keypair::new();
    rig.queue_tpu(&noop_with_budget(&payer, 25_000, 100));

    // Poll - TX ingested into unchecked, CHECK batch scheduled.
    rig.queue_progress(MOCK_PROGRESS);
    rig.poll();
    assert_eq!(rig.unchecked_len(), 0); // drained to check worker
    let check_batch = rig.pop_schedule().unwrap();
    assert_eq!(check_batch.flags & 1, pack_message_flags::CHECK);
    assert_eq!(check_batch.transactions.len(), 1);

    // Queue a successful check response.
    rig.queue_check_response_ok(&check_batch, 0);

    // Poll - check response drained, TX moves to checked.
    rig.queue_progress(MOCK_PROGRESS);
    rig.poll();
    assert_eq!(rig.checked_len(), 1);
    assert_eq!(rig.tx_count(), 1);

    // Provide tip config (drained by a non-leader poll before becoming leader).
    rig.send_tip_config();
    rig.queue_progress(MOCK_PROGRESS);
    rig.poll();

    // Transition to leader - TX should be scheduled for execution.
    rig.queue_progress(LEADER_PROGRESS);
    rig.poll();

    // Skip past the become-tip-receiver batches.
    rig.skip_tips();

    // Next scheduled batch should be our checked TX.
    let exec_batch = rig.pop_schedule().unwrap();
    assert_eq!(exec_batch.flags, pack_message_flags::EXECUTE);
    assert_eq!(exec_batch.transactions.len(), 1);
    assert_eq!(exec_batch.transactions[0].key, check_batch.transactions[0].key);

    // TX moved from checked to executing.
    assert_eq!(rig.checked_len(), 0);
    assert!(rig.executing(check_batch.transactions[0].key));
}

#[test]
fn check_err_drops_transaction() {
    let mut rig = Rig::new();

    // Ingest three TXs so we can test each failure mode.
    let payers: Vec<_> = (0..3).map(|_| Keypair::new()).collect();
    for payer in &payers {
        rig.queue_tpu(&noop_with_budget(payer, 25_000, 100));
    }

    // Poll - all three are checked.
    rig.queue_progress(MOCK_PROGRESS);
    rig.poll();
    let check_batch = rig.pop_schedule().unwrap();
    assert_eq!(check_batch.transactions.len(), 3);

    // Queue failures: parse error, resolve error, status error.
    let parse_fail = CheckResponse {
        parsing_and_sanitization_flags: parsing_and_sanitization_flags::FAILED,
        ..Rig::check_ok()
    };
    let resolve_fail = CheckResponse {
        resolve_flags: resolve_flags::REQUESTED
            | resolve_flags::PERFORMED
            | resolve_flags::FAILED,
        ..Rig::check_ok()
    };
    let status_fail = CheckResponse {
        status_check_flags: status_check_flags::REQUESTED
            | status_check_flags::PERFORMED
            | status_check_flags::ALREADY_PROCESSED,
        ..Rig::check_ok()
    };
    rig.queue_check_response(&check_batch, 0, None, parse_fail);
    rig.queue_check_response(&check_batch, 1, None, resolve_fail);
    rig.queue_check_response(&check_batch, 2, None, status_fail);

    // Poll.
    rig.queue_progress(MOCK_PROGRESS);
    rig.poll();

    // Assert - all 3 are dropped.
    assert_eq!(rig.unchecked_len(), 0);
    assert_eq!(rig.checked_len(), 0);
    assert_eq!(rig.tx_count(), 0);
}

#[test]
fn recheck_during_leader_slot() {
    let mut rig = Rig::new();

    // TPU ingest.
    let payer = Keypair::new();
    rig.queue_tpu(&noop_with_budget(&payer, 25_000, 100));

    // Scheduler picks up TX from tpu queue.
    rig.queue_progress(MOCK_PROGRESS);
    rig.poll();
    rig.queue_all_checks_ok();

    // Scheduler picks up check result from worker queue.
    rig.queue_progress(MOCK_PROGRESS);
    rig.poll();

    // Assert - TX moves to checked.
    assert_eq!(rig.checked_len(), 1);
    let checked_meta = *rig.scheduler.core.checked_tx.items.last().unwrap();

    // Tip config needed for our leader slot.
    rig.send_tip_config();
    rig.queue_progress(MOCK_PROGRESS);
    rig.poll();

    // First leader poll we become leader & next_recheck is set. Zero remaining CUs
    // so can't execute (allows us to just re-check).
    rig.queue_progress(LEADER_NO_BUDGET);
    rig.poll();
    assert!(rig.scheduler.core.checked_tx.items.contains(&checked_meta));
    rig.drain_schedules();

    // Second leader poll, we queue the recheck to the worker.
    rig.queue_progress(LEADER_NO_BUDGET);
    rig.poll();

    // Assert - the check should contain our checked TX (recheck).
    let recheck_batch = rig.pop_schedule().unwrap();
    assert_eq!(recheck_batch.flags & 1, pack_message_flags::CHECK);
    assert!(recheck_batch.transactions.iter().any(|t| t.key == checked_meta.key));

    // Queue a successful recheck response.
    let idx = recheck_batch
        .transactions
        .iter()
        .position(|t| t.key == checked_meta.key)
        .unwrap();
    rig.queue_check_response_ok(&recheck_batch, idx);

    // Poll - recheck OK is a no-op; TX stays in checked.
    rig.queue_progress(LEADER_NO_BUDGET);
    rig.poll();
    assert!(rig.scheduler.core.checked_tx.items.contains(&checked_meta));
    assert!(rig.contains_tx(checked_meta.key));
}

#[test]
fn recheck_failure_removes_from_checked() {
    let mut rig = Rig::new();

    // Poll - Ingest and check a TX so it lands in checked.
    let payer = Keypair::new();
    rig.queue_tpu(&noop_with_budget(&payer, 25_000, 100));
    rig.queue_progress(MOCK_PROGRESS);
    rig.poll();

    // Poll - Checks ok.
    rig.queue_all_checks_ok();
    rig.poll();
    assert_eq!(rig.checked_len(), 1);
    let checked_meta = *rig.scheduler.core.checked_tx.items.last().unwrap();

    // Provide tip config and drain it before becoming leader.
    rig.send_tip_config();
    rig.poll();

    // Poll - become_tip_receiver fires, TX stays in checked (no budget),
    // next_recheck set.
    rig.queue_progress(LEADER_NO_BUDGET);
    rig.poll();
    rig.drain_schedules();

    // Poll - schedule_checks fires the recheck.
    rig.queue_progress(LEADER_NO_BUDGET);
    rig.poll();

    // Assert - One batch is scheduled (recheck).
    let recheck_batch = rig.pop_schedule().unwrap();
    assert_eq!(recheck_batch.flags & 1, pack_message_flags::CHECK);
    let idx = recheck_batch
        .transactions
        .iter()
        .position(|t| t.key == checked_meta.key)
        .unwrap();
    assert!(rig.pop_schedule().is_none());

    // Poll - Recheck fails.
    let status_fail = CheckResponse {
        status_check_flags: status_check_flags::REQUESTED
            | status_check_flags::PERFORMED
            | status_check_flags::ALREADY_PROCESSED,
        ..Rig::check_ok()
    };
    rig.queue_check_response(&recheck_batch, idx, None, status_fail);
    rig.poll();

    // Assert - Checked TX dropped.
    assert!(!rig.scheduler.core.checked_tx.items.contains(&checked_meta));
    assert!(!rig.contains_tx(checked_meta.key));
}

///////////////////
// Execution flow

#[test]
fn execute_schedules_by_priority() {
    let mut rig = Rig::new();

    // Ingest two TXs with different priorities.
    let payer_low = Keypair::new();
    let payer_high = Keypair::new();
    rig.queue_tpu(&noop_with_budget(&payer_low, 25_000, 100));
    rig.queue_tpu(&noop_with_budget(&payer_high, 25_000, 200));

    // Poll - ingest & schedule checks.
    rig.queue_progress(MOCK_PROGRESS);
    rig.poll();

    // Poll - Complete checks successfully.
    rig.queue_all_checks_ok();
    rig.queue_progress(MOCK_PROGRESS);
    rig.poll();
    assert_eq!(rig.checked_len(), 2);

    // Poll - Provide tip config before becoming leader.
    rig.send_tip_config();
    rig.queue_progress(MOCK_PROGRESS);
    rig.poll();

    // Poll - Transition to leader.
    rig.queue_progress(LEADER_PROGRESS);
    rig.poll();

    // Skip past the become-tip-receiver batches.
    rig.skip_tips();

    // First execute batch should be the higher priority TX.
    let exec_high = rig.pop_schedule().unwrap();
    assert_eq!(exec_high.flags, pack_message_flags::EXECUTE);
    assert_eq!(exec_high.transactions.len(), 1);

    // Second execute batch should be the lower priority TX.
    let exec_low = rig.pop_schedule().unwrap();
    assert_eq!(exec_low.flags, pack_message_flags::EXECUTE);
    assert_eq!(exec_low.transactions.len(), 1);

    // Higher priority TX was scheduled first (higher meta.priority).
    assert!(exec_high.transactions[0].meta.priority > exec_low.transactions[0].meta.priority);

    // Both user TXs moved from checked to executing (+ 2 tip TXs).
    assert_eq!(rig.checked_len(), 0);
    assert!(rig.executing(exec_high.transactions[0].key));
    assert!(rig.executing(exec_low.transactions[0].key));
}

#[test]
fn execute_respects_budget() {
    let mut rig = Rig::new();

    // Ingest a TX.
    let payer = Keypair::new();
    rig.queue_tpu(&noop_with_budget(&payer, 25_000, 100));

    // Poll - ingest & schedule checks.
    rig.queue_progress(MOCK_PROGRESS);
    rig.poll();

    // Poll - Complete checks successfully.
    rig.queue_all_checks_ok();
    rig.queue_progress(MOCK_PROGRESS);
    rig.poll();
    assert_eq!(rig.checked_len(), 1);

    // Poll - Provide tip config before becoming leader.
    rig.send_tip_config();
    rig.queue_progress(MOCK_PROGRESS);
    rig.poll();

    // Transition to leader with zero remaining CUs (no budget).
    rig.queue_progress(LEADER_NO_BUDGET);
    rig.poll();

    // Skip past the become-tip-receiver batches.
    rig.skip_tips();

    // Assert - No user TX execute batch scheduled (budget exhausted).
    assert!(rig.pop_schedule().is_none());

    // Assert - User TX stays in checked (not moved to executing).
    assert_eq!(rig.checked_len(), 1);
}

#[test]
fn execute_respects_lock_conflicts() {
    let mut rig = Rig::new();

    // A shared writable account.
    let shared_account = unique_address();
    let program_id = unique_address();

    // Two TXs that both write to the shared account.
    let payer_a = Keypair::new();
    let payer_b = Keypair::new();
    let accounts = vec![AccountMeta::new(shared_account, false)];
    rig.queue_tpu(&call_with_budget(&payer_a, 25_000, 200, program_id, accounts.clone()));
    rig.queue_tpu(&call_with_budget(&payer_b, 25_000, 100, program_id, accounts));

    // Poll - ingest & schedule checks.
    rig.queue_progress(MOCK_PROGRESS);
    rig.poll();

    // Poll - Complete checks successfully.
    rig.queue_all_checks_ok();
    rig.queue_progress(MOCK_PROGRESS);
    rig.poll();
    assert_eq!(rig.checked_len(), 2);

    // Poll - Provide tip config before becoming leader.
    rig.send_tip_config();
    rig.queue_progress(MOCK_PROGRESS);
    rig.poll();

    // Poll - Transition to leader.
    rig.queue_progress(LEADER_PROGRESS);
    rig.poll();

    // Skip past the become-tip-receiver batches.
    rig.skip_tips();

    // Only one user TX should be scheduled (the other conflicts on shared_account).
    let exec = rig.pop_schedule().unwrap();
    assert_eq!(exec.flags, pack_message_flags::EXECUTE);
    assert_eq!(exec.transactions.len(), 1);

    // No second execute batch (lock conflict blocks the second TX).
    assert!(rig.pop_schedule().is_none());

    // One user TX executing (+ 2 tip TXs), one still in checked.
    assert!(rig.executing(exec.transactions[0].key));
    assert_eq!(rig.checked_len(), 1);
}

#[test]
fn execute_only_when_leader() {
    let mut rig = Rig::new();

    // Ingest a TX.
    let payer = Keypair::new();
    rig.queue_tpu(&noop_with_budget(&payer, 25_000, 100));

    // Poll - ingest & schedule checks.
    rig.queue_progress(MOCK_PROGRESS);
    rig.poll();

    // Poll - Complete checks successfully.
    rig.queue_all_checks_ok();
    rig.queue_progress(MOCK_PROGRESS);
    rig.poll();
    assert_eq!(rig.checked_len(), 1);

    // Poll again as NOT_LEADER (MOCK_PROGRESS has leader_state = NOT_LEADER).
    rig.queue_progress(MOCK_PROGRESS);
    rig.poll();

    // Assert - Only check batches (rechecks), no execute batches.
    while let Some(batch) = rig.pop_schedule() {
        assert_eq!(
            batch.flags & pack_message_flags::EXECUTE,
            0,
            "Expected no EXECUTE batches when not leader, got flags: {}",
            batch.flags,
        );
    }

    // Assert - TX stays in checked, nothing executing.
    assert_eq!(rig.checked_len(), 1);
    assert_eq!(rig.scheduler.core.executing_tx.len(), 0);
}

/////////////////////
// Bundle scheduling

#[test]
fn bundle_scheduled_over_tx_when_higher_priority() {
    let mut rig = Rig::new();

    // Ingest a low-priority TX via TPU.
    let payer_tx = Keypair::new();
    rig.queue_tpu(&noop_with_budget(&payer_tx, 25_000, 100));

    // Poll - ingest & schedule checks.
    rig.queue_progress(MOCK_PROGRESS);
    rig.poll();

    // Complete checks.
    rig.queue_all_checks_ok();
    rig.queue_progress(MOCK_PROGRESS);
    rig.poll();
    assert_eq!(rig.checked_len(), 1);

    // Ingest a higher-priority bundle via Jito.
    let payer_bundle = Keypair::new();
    let bundle_tx = noop_with_budget(&payer_bundle, 25_000, 500);
    rig.send(JitoUpdate::Bundle(vec![serialize_tx(&bundle_tx)]));

    // Provide tip config before becoming leader.
    rig.send_tip_config();
    rig.queue_progress(MOCK_PROGRESS);
    rig.poll();
    assert_eq!(rig.bundles_len(), 1);

    // Transition to leader.
    rig.queue_progress(LEADER_PROGRESS);
    rig.poll();

    // Skip past the become-tip-receiver batches.
    rig.skip_tips();

    // First user execute batch should be the bundle (higher priority).
    let exec_bundle = rig.pop_schedule().unwrap();
    assert_ne!(exec_bundle.flags & pack_message_flags::EXECUTE, 0);
    assert_ne!(exec_bundle.flags & execution_flags::ALL_OR_NOTHING, 0);
    assert_eq!(exec_bundle.transactions.len(), 1);

    // Second execute batch should be the individual TX (lower priority).
    let exec_tx = rig.pop_schedule().unwrap();
    assert_eq!(exec_tx.flags, pack_message_flags::EXECUTE);
    assert_eq!(exec_tx.transactions.len(), 1);

    // Bundle was scheduled before the TX.
    assert_eq!(rig.bundles_len(), 0);
    assert_eq!(rig.checked_len(), 0);
}

#[test]
fn bundle_uses_all_or_nothing_flag() {
    let mut rig = Rig::new();

    // Ingest a 2-TX bundle.
    let payer_a = Keypair::new();
    let payer_b = Keypair::new();
    let tx_a = noop_with_budget(&payer_a, 25_000, 100);
    let tx_b = noop_with_budget(&payer_b, 25_000, 200);
    rig.send(JitoUpdate::Bundle(vec![serialize_tx(&tx_a), serialize_tx(&tx_b)]));

    // Provide tip config before becoming leader.
    rig.send_tip_config();
    rig.queue_progress(MOCK_PROGRESS);
    rig.poll();
    assert_eq!(rig.bundles_len(), 1);

    // Transition to leader.
    rig.queue_progress(LEADER_PROGRESS);
    rig.poll();

    // Skip past the become-tip-receiver batches.
    rig.skip_tips();

    // The bundle batch must have ALL_OR_NOTHING | DROP_ON_FAILURE flags.
    let exec_bundle = rig.pop_schedule().unwrap();
    let expected_flags = pack_message_flags::EXECUTE
        | execution_flags::DROP_ON_FAILURE
        | execution_flags::ALL_OR_NOTHING;
    assert_eq!(exec_bundle.flags, expected_flags);

    // Both bundle TXs are in the same batch.
    assert_eq!(exec_bundle.transactions.len(), 2);

    // Bundle TXs are marked with BUNDLE_MARKER priority.
    for tx in &exec_bundle.transactions {
        assert_eq!(tx.meta.priority, BUNDLE_MARKER);
    }

    // Bundle consumed from scheduler.
    assert_eq!(rig.bundles_len(), 0);
}

/// A transaction and a bundle that write to the same account, with the prices
/// given; leaves the scheduler leading.
fn setup_conflict(tx_price: u64, bundle_price: u64) -> Rig {
    let mut rig = Rig::new();

    // Shared writable account between a TX and a bundle TX.
    let shared_account = unique_address();
    let program_id = unique_address();
    let accounts = vec![AccountMeta::new(shared_account, false)];

    // Ingest a TX that writes to shared_account.
    let payer_tx = Keypair::new();
    rig.queue_tpu(&call_with_budget(&payer_tx, 25_000, tx_price, program_id, accounts.clone()));

    // Poll - ingest & schedule checks.
    rig.queue_progress(MOCK_PROGRESS);
    rig.poll();

    // Complete checks.
    rig.queue_all_checks_ok();
    rig.queue_progress(MOCK_PROGRESS);
    rig.poll();
    assert_eq!(rig.checked_len(), 1);

    // Ingest a bundle whose TX also writes to shared_account.
    let payer_bundle = Keypair::new();
    let bundle_tx = call_with_budget(&payer_bundle, 25_000, bundle_price, program_id, accounts);
    rig.send(JitoUpdate::Bundle(vec![serialize_tx(&bundle_tx)]));

    // Provide tip config before becoming leader.
    rig.send_tip_config();
    rig.queue_progress(MOCK_PROGRESS);
    rig.poll();
    assert_eq!(rig.bundles_len(), 1);

    // Transition to leader.
    rig.queue_progress(LEADER_PROGRESS);
    rig.poll();

    // Skip past the become-tip-receiver batches.
    rig.skip_tips();
    rig
}

#[test]
fn bundle_wins_against_tpu() {
    let mut rig = setup_conflict(100, 500);

    // The bundle gets scheduled (higher priority).
    let exec_tx = rig.pop_schedule().unwrap();
    assert_eq!(
        exec_tx.flags,
        pack_message_flags::EXECUTE
            | execution_flags::DROP_ON_FAILURE
            | execution_flags::ALL_OR_NOTHING
    );
    assert_eq!(exec_tx.transactions.len(), 1);

    // No further batches - tx is blocked by the write lock conflict.
    assert!(rig.pop_schedule().is_none());

    assert_eq!(rig.bundles_len(), 0);
    assert_eq!(rig.checked_len(), 1);
}

#[test]
fn bundle_loses_against_tpu() {
    let mut rig = setup_conflict(500, 100);

    // The individual TX gets scheduled (higher priority).
    let exec_tx = rig.pop_schedule().unwrap();
    assert_eq!(exec_tx.flags, pack_message_flags::EXECUTE);
    assert_eq!(exec_tx.transactions.len(), 1);

    // No further batches - bundle is blocked by the write lock conflict.
    assert!(rig.pop_schedule().is_none());

    // Bundle remains in scheduler (not consumed).
    assert_eq!(rig.bundles_len(), 1);
}

//////////////////////
// Execution responses

#[test]
fn execute_ok_drops_transaction() {
    let (mut rig, exec_batch) = setup_executing_tx(25_000, 100);
    let tx_key = exec_batch.transactions[0].key;

    // Queue a successful execution response.
    rig.queue_execute_response(&exec_batch, 0, not_included_reasons::NONE);

    // Poll to drain the response.
    rig.queue_progress(LEADER_PROGRESS);
    rig.poll();

    // TX dropped from bridge, removed from executing, not in checked or deferred.
    assert!(!rig.contains_tx(tx_key));
    assert!(!rig.executing(tx_key));
    assert_eq!(rig.checked_len(), 0);
    assert_eq!(rig.deferred_len(), 0);
}

#[test]
fn execute_retryable_account_in_use_retries_same_slot() {
    let (mut rig, exec_batch) = setup_executing_tx(25_000, 100);
    let tx_key = exec_batch.transactions[0].key;

    // Queue ACCOUNT_IN_USE response (retryable, same slot).
    rig.queue_execute_response(&exec_batch, 0, not_included_reasons::ACCOUNT_IN_USE);

    // Poll as NOT_LEADER so schedule_execute doesn't immediately re-schedule.
    rig.queue_progress(MOCK_PROGRESS);
    rig.poll();

    // TX goes back to checked (immediate retry), not deferred.
    assert!(rig.contains_tx(tx_key));
    assert!(!rig.executing(tx_key));
    assert_eq!(rig.deferred_len(), 0);
    assert!(rig.checked(tx_key));
}

#[test]
fn execute_retryable_other_defers_to_next_slot() {
    let (mut rig, exec_batch) = setup_executing_tx(25_000, 100);
    let tx_key = exec_batch.transactions[0].key;

    // Queue WOULD_EXCEED_MAX_BLOCK_COST_LIMIT response (retryable, same slot).
    rig.queue_execute_response(
        &exec_batch,
        0,
        not_included_reasons::WOULD_EXCEED_MAX_BLOCK_COST_LIMIT,
    );

    // Poll to drain the response.
    rig.queue_progress(LEADER_PROGRESS);
    rig.poll();

    // TX goes to deferred (not checked), will retry next slot.
    assert!(rig.contains_tx(tx_key));
    assert!(!rig.executing(tx_key));
    assert_eq!(rig.checked_len(), 0);
    assert!(rig.deferred(tx_key));
}

#[test]
fn deferred_tx_drained_on_slot_roll() {
    let (mut rig, exec_batch) = setup_executing_tx(25_000, 100);
    let tx_key = exec_batch.transactions[0].key;

    // Queue a retryable error that defers the TX.
    rig.queue_execute_response(
        &exec_batch,
        0,
        not_included_reasons::WOULD_EXCEED_MAX_BLOCK_COST_LIMIT,
    );

    // Poll to drain the response - TX moves to deferred.
    rig.queue_progress(LEADER_PROGRESS);
    rig.poll();
    assert!(rig.deferred(tx_key));

    // Roll to the next slot.
    rig.queue_progress(ProgressMessage {
        current_slot: MOCK_PROGRESS.current_slot + 1,
        ..MOCK_PROGRESS
    });
    rig.poll();

    // Deferred TX drained back to checked.
    assert_eq!(rig.deferred_len(), 0);
    assert!(rig.checked(tx_key));
    assert!(rig.contains_tx(tx_key));
}

#[test]
fn execute_non_retryable_drops_transaction() {
    let (mut rig, exec_batch) = setup_executing_tx(25_000, 100);
    let tx_key = exec_batch.transactions[0].key;

    // Queue ALREADY_PROCESSED response (non-retryable).
    rig.queue_execute_response(&exec_batch, 0, not_included_reasons::ALREADY_PROCESSED);

    // Poll to drain the response.
    rig.queue_progress(LEADER_PROGRESS);
    rig.poll();

    // TX dropped entirely.
    assert!(!rig.contains_tx(tx_key));
    assert!(!rig.executing(tx_key));
    assert_eq!(rig.checked_len(), 0);
    assert_eq!(rig.deferred_len(), 0);
}

#[test]
fn execute_err_bundle_always_drops() {
    let (mut rig, exec_batch) = setup_executing_bundle();
    let tx_key = exec_batch.transactions[0].key;

    // Queue a retryable error for the bundle TX.
    rig.queue_execute_response(&exec_batch, 0, not_included_reasons::ACCOUNT_IN_USE);

    // Poll to drain the response.
    rig.queue_progress(LEADER_PROGRESS);
    rig.poll();

    // Bundle TX is dropped regardless of retryability.
    assert!(!rig.contains_tx(tx_key));
    assert!(!rig.executing(tx_key));
    assert_eq!(rig.checked_len(), 0);
    assert_eq!(rig.deferred_len(), 0);
}

#[test]
fn unprocessed_execute_returns_to_checked() {
    let (mut rig, exec_batch) = setup_executing_tx(25_000, 100);
    let tx_key = exec_batch.transactions[0].key;

    // Queue an unprocessed response.
    rig.queue_unprocessed_response(&exec_batch, 0);

    // Poll as NOT_LEADER so schedule_execute doesn't immediately re-schedule.
    rig.queue_progress(MOCK_PROGRESS);
    rig.poll();

    // TX returns to checked, not dropped.
    assert!(rig.contains_tx(tx_key));
    assert!(!rig.executing(tx_key));
    assert!(rig.checked(tx_key));
    assert_eq!(rig.deferred_len(), 0);
}

#[test]
fn unprocessed_bundle_drops() {
    let (mut rig, exec_batch) = setup_executing_bundle();
    let tx_key = exec_batch.transactions[0].key;

    // Queue an unprocessed response for the bundle TX.
    rig.queue_unprocessed_response(&exec_batch, 0);

    // Poll to drain the response.
    rig.queue_progress(LEADER_PROGRESS);
    rig.poll();

    // Bundle TX is dropped (bundles are never retried).
    assert!(!rig.contains_tx(tx_key));
    assert!(!rig.executing(tx_key));
    assert_eq!(rig.checked_len(), 0);
    assert_eq!(rig.deferred_len(), 0);
}

////////////////////////////
// Slot/leader transitions

#[test]
fn leader_ready_triggers_become_receiver() {
    let mut rig = Rig::new();

    // Initial jito config & slot status indicating leader not ready.
    rig.send_tip_config();
    rig.queue_progress(ProgressMessage { current_slot: 1, ..MOCK_PROGRESS });
    rig.poll();
    assert!(rig.pop_schedule().is_none());

    // Transition to leader & poll.
    rig.queue_progress(ProgressMessage { current_slot: 1, ..LEADER_PROGRESS });
    rig.poll();

    // Assert - our become receiver batches scheduled.
    let expected_flags = pack_message_flags::EXECUTE | execution_flags::DROP_ON_FAILURE;

    let batch0 = rig.pop_schedule().unwrap();
    assert_eq!(batch0.flags, expected_flags);
    assert_eq!(batch0.transactions.len(), 1);
    assert_eq!(batch0.worker, EXECUTE_WORKER_START);
    assert_eq!(batch0.max_working_slot, 5);

    let batch1 = rig.pop_schedule().unwrap();
    assert_eq!(batch1.flags, expected_flags);
    assert_eq!(batch1.transactions.len(), 1);
    assert_eq!(batch1.worker, EXECUTE_WORKER_START);

    // Assert - Nothing else scheduled.
    assert!(rig.pop_schedule().is_none());
}

#[test]
fn leader_ready_only_fires_once_per_slot() {
    let mut rig = Rig::new();

    // Provide tip config.
    rig.send_tip_config();
    rig.queue_progress(ProgressMessage { current_slot: 1, ..MOCK_PROGRESS });
    rig.poll();

    // First LEADER_READY poll - tip TXs are scheduled.
    rig.queue_progress(ProgressMessage { current_slot: 1, ..LEADER_PROGRESS });
    rig.poll();
    rig.skip_tips();
    rig.drain_schedules();

    // Second LEADER_READY poll on the same slot - no new tip TXs.
    rig.queue_progress(ProgressMessage { current_slot: 1, ..LEADER_PROGRESS });
    rig.poll();

    // Assert - no new EXECUTE|DROP_ON_FAILURE batches (become_receiver didn't fire
    // again).
    let expected_tip_flags = pack_message_flags::EXECUTE | execution_flags::DROP_ON_FAILURE;
    while let Some(batch) = rig.pop_schedule() {
        assert_ne!(
            batch.flags, expected_tip_flags,
            "Unexpected tip batch on repeated LEADER_READY poll",
        );
    }
}

#[test]
fn slot_roll_clears_deferred_to_checked() {
    let (mut rig, exec_batch) = setup_executing_tx(25_000, 100);
    let tx_key = exec_batch.transactions[0].key;

    // Queue a retryable error that defers the TX.
    rig.queue_execute_response(
        &exec_batch,
        0,
        not_included_reasons::WOULD_EXCEED_MAX_BLOCK_COST_LIMIT,
    );

    // Poll - TX moves to deferred.
    rig.queue_progress(MOCK_PROGRESS);
    rig.poll();
    assert!(rig.deferred(tx_key));
    assert_eq!(rig.checked_len(), 0);

    // Roll to next slot.
    rig.queue_progress(ProgressMessage {
        current_slot: MOCK_PROGRESS.current_slot + 1,
        ..MOCK_PROGRESS
    });
    rig.poll();

    // Deferred TX drained back to checked.
    assert_eq!(rig.deferred_len(), 0);
    assert!(rig.checked(tx_key), "Deferred TX should move to checked_tx on slot roll");
    assert!(rig.contains_tx(tx_key));
}

#[test]
fn slot_roll_resets_recheck_cursor() {
    let mut rig = Rig::new();

    // Ingest & check a TX.
    let payer = Keypair::new();
    rig.queue_tpu(&noop_with_budget(&payer, 25_000, 100));
    rig.queue_progress(MOCK_PROGRESS);
    rig.poll();
    rig.queue_all_checks_ok();
    rig.queue_progress(MOCK_PROGRESS);
    rig.poll();
    assert_eq!(rig.checked_len(), 1);
    let checked_meta = *rig.scheduler.core.checked_tx.items.last().unwrap();

    // Provide tip config.
    rig.send_tip_config();
    rig.queue_progress(MOCK_PROGRESS);
    rig.poll();

    // First leader poll - become_receiver fires, next_recheck set.
    rig.queue_progress(LEADER_NO_BUDGET);
    rig.poll();
    rig.drain_schedules();

    // Second leader poll - recheck is scheduled.
    rig.queue_progress(LEADER_NO_BUDGET);
    rig.poll();
    let recheck_batch = rig.pop_schedule().unwrap();
    assert_eq!(recheck_batch.flags & 1, pack_message_flags::CHECK);
    assert!(recheck_batch.transactions.iter().any(|t| t.key == checked_meta.key));
    rig.queue_check_response_ok(&recheck_batch, 0);

    // Third leader poll - recheck response drained, cursor exhausted (only 1 TX).
    rig.queue_progress(LEADER_NO_BUDGET);
    rig.poll();
    assert!(rig.scheduler.core.next_recheck.is_some()); // Re-initialized by poll.

    // Exhaust remaining rechecks so cursor is fully consumed.
    for _ in 0..2 {
        while let Some(batch) = rig.pop_schedule() {
            if batch.flags & 1 == pack_message_flags::CHECK {
                for i in 0..batch.transactions.len() {
                    rig.queue_check_response_ok(&batch, i);
                }
            }
        }
        rig.queue_progress(LEADER_NO_BUDGET);
        rig.poll();
    }
    rig.drain_schedules();

    // Now roll to a new slot - cursor should reset.
    let new_slot = MOCK_PROGRESS.current_slot + 1;
    rig.queue_progress(ProgressMessage { current_slot: new_slot, ..LEADER_NO_BUDGET });
    rig.poll();
    rig.drain_schedules(); // Drain any become_receiver batches.

    // Poll again - recheck should be scheduled (cursor was reset by slot roll).
    rig.queue_progress(ProgressMessage { current_slot: new_slot, ..LEADER_NO_BUDGET });
    rig.poll();

    // Assert - a check batch containing our TX is scheduled (recheck restarted).
    let mut found_recheck = false;
    while let Some(batch) = rig.pop_schedule() {
        if batch.flags & 1 == pack_message_flags::CHECK
            && batch.transactions.iter().any(|t| t.key == checked_meta.key)
        {
            found_recheck = true;
        }
    }
    assert!(found_recheck, "Recheck should restart after slot roll");
    assert!(rig.scheduler.core.checked_tx.items.contains(&checked_meta));
}

//////////////
// Edge cases

#[test]
fn checked_capacity_eviction() {
    let mut rig = Rig::new();

    // Fill checked_tx to capacity (64) by ingesting and checking 64 TXs.
    // Use large cu_price values to ensure distinct priorities.
    let payers: Vec<Keypair> = (0..64).map(|_| Keypair::new()).collect();
    for (i, payer) in payers.iter().enumerate() {
        let cu_price = ((i + 1) as u64) * 1_000;
        rig.queue_tpu(&noop_with_budget(payer, 25_000, cu_price));
    }
    rig.queue_progress(MOCK_PROGRESS);
    rig.poll();

    // Complete all checks.
    rig.queue_all_checks_ok();
    rig.queue_progress(MOCK_PROGRESS);
    rig.poll();
    assert_eq!(rig.checked_len(), 64);
    assert_eq!(rig.unchecked_len(), 0);

    // Remember the lowest priority checked TX.
    let lowest = *rig.scheduler.core.checked_tx.items.first().unwrap();

    // Ingest one more TX and complete its check -> should evict lowest checked.
    let new_payer = Keypair::new();
    rig.queue_tpu(&noop_with_budget(&new_payer, 25_000, 100_000));
    rig.queue_progress(MOCK_PROGRESS);
    rig.poll();

    // Complete the new TX's check.
    rig.queue_all_checks_ok();
    rig.queue_progress(MOCK_PROGRESS);
    rig.poll();

    // Assert - checked_tx is still at capacity (lowest was evicted, new one
    // inserted).
    assert_eq!(rig.checked_len(), 64);

    // Assert - the old lowest priority TX was evicted and dropped from bridge.
    assert!(!rig.scheduler.core.checked_tx.items.contains(&lowest));
    assert!(!rig.contains_tx(lowest.key));

    // Assert - new minimum has higher priority than the evicted TX.
    let new_min = rig.scheduler.core.checked_tx.items.first().unwrap();
    assert!(new_min.priority > lowest.priority);
}

#[test]
fn in_flight_units_are_those_of_what_executes() {
    let (mut rig, exec_batch) = setup_executing_tx(25_000, 100);
    let cost = exec_batch.transactions[0].meta.cost;
    assert!(cost > 25_000);
    assert_eq!(rig.scheduler.core.in_flight_cus, cost);

    rig.queue_execute_response(&exec_batch, 0, not_included_reasons::NONE);
    rig.queue_progress(MOCK_PROGRESS);
    rig.poll();
    assert_eq!(rig.scheduler.core.in_flight_cus, 0);
}

#[test]
fn locks_are_released_after_execution() {
    let (mut rig, exec_batch) = setup_executing_tx(25_000, 100);
    let held = rig.scheduler.in_flight_locks.len();
    assert!(held > 0);

    rig.queue_execute_response(&exec_batch, 0, not_included_reasons::NONE);
    rig.queue_progress(MOCK_PROGRESS);
    rig.poll();
    assert!(rig.scheduler.in_flight_locks.len() < held);
}

#[test]
fn expired_bundles_are_dropped() {
    let mut rig = Rig::new();
    let payer = Keypair::new();
    let tx = noop_with_budget(&payer, 25_000, 100);
    rig.send(JitoUpdate::Bundle(vec![serialize_tx(&tx)]));
    rig.poll();
    assert_eq!(rig.bundles_len(), 1);

    // Exactly as old as allowed: kept.
    rig.now += 199_000_000;
    rig.queue_progress(MOCK_PROGRESS);
    rig.poll();
    assert_eq!(rig.bundles_len(), 1);

    // One round later it is too old.
    rig.queue_progress(MOCK_PROGRESS);
    rig.poll();
    assert_eq!(rig.bundles_len(), 0);
    assert_eq!(rig.tx_count(), 0);
}

#[test]
fn resolved_keys_are_filtered() {
    let mut rig = Rig::new();
    let payer = Keypair::new();
    rig.queue_tpu(&noop_with_budget(&payer, 25_000, 100));
    rig.queue_progress(MOCK_PROGRESS);
    rig.poll();
    let check_batch = rig.pop_schedule().unwrap();
    let resolved = vec![unique_pubkey(), Pubkey { bytes: TIP_PAYMENT_PROGRAM }];
    rig.queue_check_response(&check_batch, 0, Some(resolved), Rig::check_ok());
    rig.queue_progress(MOCK_PROGRESS);
    rig.poll();
    assert_eq!(rig.checked_len(), 0);
    assert_eq!(rig.tx_count(), 0);
    assert_eq!(rig.scheduler.core.slot_stats.check_filtered, 1);
}

#[test]
fn resolved_keys_are_locked() {
    let mut rig = Rig::new();
    let payer = Keypair::new();
    rig.queue_tpu(&noop_with_budget(&payer, 25_000, 100));
    rig.queue_progress(MOCK_PROGRESS);
    rig.poll();
    let check_batch = rig.pop_schedule().unwrap();
    let key = check_batch.transactions[0].key;
    let before = rig.bridge.locks(key).len();
    let resolved = unique_pubkey();
    rig.queue_check_response(&check_batch, 0, Some(vec![resolved]), Rig::check_ok());
    rig.queue_progress(MOCK_PROGRESS);
    rig.poll();
    let locks = rig.bridge.locks(key);
    assert_eq!(locks.len(), before + 1);
    assert!(locks.contains(&(resolved, false)));
}

#[test]
fn unchecked_overflow_evicts_lowest() {
    let mut rig = Rig::new();
    rig.scheduler.set_runtime_config(2, 64, 16, 20, 0, 200_000_000, 5_000_000_000);
    let payers: Vec<Keypair> = (0..2).map(|_| Keypair::new()).collect();
    rig.queue_tpu(&noop_with_budget(&payers[0], 25_000, 1_000));
    rig.queue_tpu(&noop_with_budget(&payers[1], 25_000, 900_000));
    rig.poll();
    assert_eq!(rig.unchecked_len(), 2);
    let low = *rig.scheduler.core.unchecked_tx.peek_min().unwrap();

    let late = Keypair::new();
    rig.queue_tpu(&noop_with_budget(&late, 25_000, 500_000));
    rig.poll();
    assert_eq!(rig.unchecked_len(), 2);
    assert!(!rig.contains_tx(low.2));
    assert_eq!(rig.dropped, vec![low.2]);
    assert_eq!(rig.scheduler.core.slot_stats.ingest_tpu_evict, 1);
}

#[test]
fn malformed_packets_are_ignored() {
    let mut rig = Rig::new();
    rig.tpu.push(TpuPacket { packet: vec![1, 2, 3], simple_vote: false });
    rig.send(JitoUpdate::Packet(vec![9; 40]));
    rig.send(JitoUpdate::Bundle(vec![]));
    rig.poll();
    assert_eq!(rig.tx_count(), 0);
    assert_eq!(rig.bundles_len(), 0);
    assert!(rig.pop_schedule().is_none());
}

#[test]
fn events_tell_the_story_of_a_transaction() {
    let mut rig = Rig::with_events(Some(EventEmitter::new(EventContext::new())));
    let payer = Keypair::new();
    rig.queue_tpu(&noop_with_budget(&payer, 25_000, 100));
    rig.queue_progress(MOCK_PROGRESS);
    rig.poll();
    assert!(matches!(rig.events[0].event, Event::SlotStart));
    assert_eq!(rig.events[0].slot, 10);
    assert!(matches!(rig.events[1].event, Event::Transaction(_)));
    rig.queue_all_checks_ok();
    rig.queue_progress(ProgressMessage { current_slot: 11, ..MOCK_PROGRESS });
    rig.poll();
    assert!(matches!(rig.events[2].event, Event::SlotStats(_)));
    assert_eq!(rig.events[2].slot, 10);
    assert!(matches!(rig.events[3].event, Event::SlotStart));
    assert_eq!(rig.events[3].slot, 11);
    assert!(matches!(rig.events[4].event, Event::Transaction(_)));
    assert_eq!(rig.events.len(), 5);
}

#[test]
fn votes_are_not_reported() {
    let mut rig = Rig::with_events(Some(EventEmitter::new(EventContext::new())));
    let payer = Keypair::new();
    rig.tpu.push(TpuPacket {
        packet: serialize_tx(&noop_with_budget(&payer, 25_000, 100)),
        simple_vote: true,
    });
    rig.queue_progress(MOCK_PROGRESS);
    rig.poll();
    assert_eq!(rig.events.len(), 1);
    assert!(matches!(rig.events[0].event, Event::SlotStart));
    assert_eq!(rig.tx_count(), 1);
}

#[test]
fn busy_workers_get_nothing() {
    let mut rig = Rig::new();
    let payers: Vec<Keypair> = (0..3).map(|_| Keypair::new()).collect();
    for payer in &payers {
        rig.queue_tpu(&noop_with_budget(payer, 25_000, 100));
    }
    rig.queue_progress(MOCK_PROGRESS);
    rig.poll();
    rig.queue_all_checks_ok();
    rig.send_tip_config();
    rig.queue_progress(MOCK_PROGRESS);
    rig.poll();
    assert_eq!(rig.checked_len(), 3);
    rig.bridge.workers[2].len = 1;
    rig.bridge.workers[3].len = 1;
    rig.queue_progress(LEADER_PROGRESS);
    rig.poll();
    // The first worker holds the tip transactions, two are busy: one is left.
    assert_eq!(rig.checked_len(), 2);
    assert!(rig.queues[2].is_empty() && rig.queues[3].is_empty());
    let sent: Vec<&KeyedTransactionMeta> =
        rig.queues[4].iter().flat_map(|batch| batch.transactions.iter()).collect();
    assert_eq!(sent.len(), 1);
}

#[test]
fn every_transaction_is_in_one_place() {
    let mut rig = Rig::new();
    for price in 1..=6 {
        rig.queue_tpu(&noop_with_budget(&Keypair::new(), 25_000, price * 10));
    }
    let bundle = vec![
        serialize_tx(&noop_with_budget(&Keypair::new(), 25_000, 50)),
        serialize_tx(&noop_with_budget(&Keypair::new(), 25_000, 60)),
    ];
    rig.send(JitoUpdate::Bundle(bundle));
    rig.send(JitoUpdate::Packet(serialize_tx(&noop_with_budget(&Keypair::new(), 25_000, 70))));
    rig.send_tip_config();
    rig.queue_progress(MOCK_PROGRESS);
    rig.poll();
    let checks = rig.pop_schedule().unwrap();
    let in_check: Vec<u64> = checks.transactions.iter().map(|tx| tx.key).collect();
    assert_eq!(in_check.len(), 7);
    rig.assert_in_order(&in_check);

    // All but the first pass.
    let failed = CheckResponse {
        status_check_flags: status_check_flags::REQUESTED
            | status_check_flags::PERFORMED
            | status_check_flags::ALREADY_PROCESSED,
        ..Rig::check_ok()
    };
    rig.queue_check_response(&checks, 0, None, failed);
    for i in 1..7 {
        rig.queue_check_response_ok(&checks, i);
    }
    rig.queue_progress(MOCK_PROGRESS);
    rig.poll();
    assert!(!rig.contains_tx(in_check[0]));
    assert_eq!(rig.tx_count(), 8);
    rig.assert_in_order(&[]);

    // As leader, everything that can be started executes.
    rig.queue_progress(LEADER_PROGRESS);
    rig.poll();
    rig.assert_in_order(&[]);

    // Workers answer in all ways; the next slot restores what was deferred.
    let reasons = [
        not_included_reasons::NONE,
        not_included_reasons::ACCOUNT_IN_USE,
        not_included_reasons::WOULD_EXCEED_MAX_BLOCK_COST_LIMIT,
    ];
    let mut answered = 0;
    while let Some(batch) = rig.pop_schedule() {
        if batch.flags & 1 == pack_message_flags::CHECK {
            continue;
        }
        for i in 0..batch.transactions.len() {
            if answered % 4 == 3 {
                rig.queue_unprocessed_response(&batch, i);
            } else {
                rig.queue_execute_response(&batch, i, reasons[answered % 4]);
            }
            answered += 1;
        }
    }
    assert!(answered > 3);
    rig.queue_progress(LEADER_NO_BUDGET);
    rig.poll();
    rig.assert_in_order(&[]);
    rig.queue_progress(ProgressMessage { current_slot: 11, ..MOCK_PROGRESS });
    rig.poll();
    assert_eq!(rig.deferred_len(), 0);
    rig.assert_in_order(&[]);
}

/////////
// Rounds

fn quiet_input(now: u64) -> PollInput {
    PollInput { progress: None, now, responses: vec![], tpu: vec![], updates: vec![] }
}

#[test]
fn a_round_runs_the_same_with_and_without_tests() {
    let tx = noop_with_budget(&Keypair::new(), 25_000, 100);
    let mut tested = Rig::new();
    let mut direct = Rig::new();
    for rig in [&mut tested, &mut direct] {
        rig.queue_tpu(&tx);
        rig.queue_progress(MOCK_PROGRESS);
    }
    tested.poll();
    let input = PollInput {
        progress: direct.progress.take(),
        tpu: std::mem::take(&mut direct.tpu),
        ..quiet_input(1_000_000)
    };
    direct.scheduler.poll(&mut direct.bridge, input);
    let batch = tested.pop_schedule().unwrap();
    let Some(Action::Schedule { batch: other }) = direct.bridge.take_actions().pop() else {
        panic!();
    };
    assert_eq!(batch.transactions[0].meta, other.transactions[0].meta);
    assert_eq!(batch.flags, other.flags);
}

#[test]
fn a_round_is_refused_before_anything_changes() {
    let mut rig = Rig::new();
    let progress = ProgressMessage { current_slot: u64::MAX - 3, ..MOCK_PROGRESS };
    let input = PollInput { progress: Some(progress), ..quiet_input(1) };
    assert_eq!(rig.scheduler.try_poll(&mut rig.bridge, input), Err(PollError::SlotTooHigh));

    let cutoff = rig.scheduler.core.runtime.block_fill_cutoff;
    let progress = ProgressMessage {
        current_slot_progress: u8::MAX - cutoff + 1,
        ..MOCK_PROGRESS
    };
    let input = PollInput { progress: Some(progress), ..quiet_input(1) };
    assert_eq!(rig.scheduler.try_poll(&mut rig.bridge, input), Err(PollError::FillTooHigh));

    let timeout = rig.scheduler.core.runtime.progress_timeout;
    assert_eq!(
        rig.scheduler.try_poll(&mut rig.bridge, quiet_input(timeout)),
        Err(PollError::Disconnected)
    );
    assert_eq!(rig.scheduler.core.slot, 0);
    assert_eq!(rig.scheduler.try_poll(&mut rig.bridge, quiet_input(timeout - 1)), Ok(()));
}

#[test]
fn an_answer_that_makes_no_sense_is_refused() {
    // Another cost than the one that was sent.
    let (mut rig, batch) = setup_executing_tx(25_000, 100);
    rig.queue_execute_response(&batch, 0, not_included_reasons::NONE);
    rig.responses[0].meta.cost += 1;
    assert!(!rig.scheduler.accepts_answer(&rig.bridge, &rig.responses[0]));
    let input = PollInput { responses: std::mem::take(&mut rig.responses), ..quiet_input(rig.now) };
    assert_eq!(rig.scheduler.try_poll(&mut rig.bridge, input), Err(PollError::Answer));
    assert!(rig.executing(batch.transactions[0].key));

    // Locks that were given up already.
    let key = batch.transactions[0].key;
    rig.queue_execute_response(&batch, 0, not_included_reasons::NONE);
    assert!(rig.scheduler.accepts_answer(&rig.bridge, &rig.responses[0]));
    assert!(rig.scheduler.holds_locks(&rig.bridge, key));
    rig.scheduler.unlock(&rig.bridge, key);
    assert!(!rig.scheduler.holds_locks(&rig.bridge, key));
    assert!(!rig.scheduler.accepts_answer(&rig.bridge, &rig.responses[0]));

    // An inconsistent check, unless it is ignored.
    let rep = CheckResponse { status_check_flags: 0, ..Rig::check_ok() };
    assert!(!rep.is_consistent());
    let meta = batch.transactions[0].meta;
    let answer = WorkerResponse { meta, response: WorkerAction::Check(rep, None) };
    assert!(rig.scheduler.accepts_answer(&rig.bridge, &answer));
    rig.scheduler.core.executing_tx.remove(&key);
    assert!(!rig.scheduler.accepts_answer(&rig.bridge, &answer));
}

#[test]
fn starting_a_transaction_adds_its_cost_to_what_is_in_flight() {
    let mut rig = Rig::new();
    rig.queue_tpu(&noop_with_budget(&Keypair::new(), 25_000, 100));
    rig.poll();
    rig.queue_all_checks_ok();
    rig.poll();
    assert_eq!(rig.scheduler.core.in_flight_cus, 0);
    let cost = rig.scheduler.core.checked_tx.items[0].cost;
    let refused = rig.scheduler.try_schedule_transaction(cost - 1, &mut rig.bridge, 1);
    assert_eq!(refused.0, cost - 1);
    assert!(refused.1.is_empty());
    assert_eq!(rig.scheduler.core.in_flight_cus, 0);
    let (left, batch) = rig.scheduler.try_schedule_transaction(cost + 7, &mut rig.bridge, 1);
    assert_eq!(left, 7);
    assert_eq!(batch.len(), 1);
    assert_eq!(rig.scheduler.core.in_flight_cus, cost);
    assert!(rig.executing(batch[0].key));
    assert!(rig.scheduler.holds_locks(&rig.bridge, batch[0].key));
}

#[test]
fn starting_a_bundle_adds_its_cost_to_what_is_in_flight() {
    let mut rig = Rig::new();
    let a = noop_with_budget(&Keypair::new(), 25_000, 100);
    let b = noop_with_budget(&Keypair::new(), 25_000, 100);
    rig.send(JitoUpdate::Bundle(vec![serialize_tx(&a), serialize_tx(&b)]));
    rig.poll();
    let cost = rig.scheduler.core.bundles.items[0].cost;
    let (left, batch) = rig.scheduler.try_schedule_bundle(cost, &mut rig.bridge, 1);
    assert_eq!(left, 0);
    assert_eq!(batch.len(), 2);
    assert_eq!(batch[0].meta.cost, cost);
    assert_eq!(batch[1].meta.cost, 0);
    assert_eq!(rig.scheduler.core.in_flight_cus, cost);
    assert_eq!(rig.bundles_len(), 0);
}

#[test]
fn without_leading_what_waits_stays() {
    let mut rig = Rig::new();
    rig.queue_tpu(&noop_with_budget(&Keypair::new(), 25_000, 100));
    rig.poll();
    rig.queue_all_checks_ok();
    rig.poll();
    let key = rig.scheduler.core.checked_tx.items[0].key;
    rig.queue_tpu(&noop_with_budget(&Keypair::new(), 25_000, 200));
    rig.queue_progress(ProgressMessage { current_slot: 11, ..MOCK_PROGRESS });
    rig.poll();
    assert!(rig.checked(key));
    assert!(rig.scheduler.core.executing_tx.is_empty());
}
