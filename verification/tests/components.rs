use sched_archive::accounts::{
    is_tip_account, list_tip_accounts, SYSTEM_PROGRAM, TIP_ACCOUNT_0, TIP_ACCOUNT_7,
    TIP_DISTRIBUTION_CONFIG, TIP_DISTRIBUTION_PROGRAM, TIP_PAYMENT_CONFIG, TIP_PAYMENT_PROGRAM,
};
use sched_archive::auction_engine::{
    build_batches, build_bundle_batch, AuctionEngine, CUAllocation, LockManager, TransactionBatch,
    TransactionCandidate, Verdict,
};
use sched_archive::config_store::{
    AuctionBatchSchedulerConfigData, AuctionBatchScoringConfig, BatchSchedulerConfigData,
    ConfigData, SchedulerConfig,
};
use sched_archive::jito::{
    auth_error_message, authorization, enable_tls, on_bundles, on_packets, on_tip_config,
    validate_tokens, AuthError, AuthToken, JitoUpdate,
};
use sched_archive::jito_session::{Session, SessionAction, SessionError, SessionEvent, Stage};
use sched_archive::le::{read_le, write_le};
use sched_archive::ordered::Ordered;
use sched_archive::pubkey::Pubkey;
use sched_archive::setup::{
    auction_args, batch_args, collect_keys, first_failure, interval_step, nanos_from_millis,
    nanos_from_secs, read_keys, select_scheduler, update_status, IntervalStep, SchedulerKind,
    Selection, SetupError, UpdateError, UpdateStatus,
};
use sched_archive::shared::PriorityId;
use sched_archive::tip_program::{
    change_tip_receiver, init_tip_distribution, ChangeTipReceiverArgs, Identity,
    TipDistributionArgs,
};
use sched_archive::worker::{block_budget, is_retryable, CheckResponse};
use sched_archive::bridge::{ProgressMessage, LEADER_READY, NOT_LEADER};
use agave_scheduler_bindings::worker_message_types::not_included_reasons;
use solana_keypair::{Keypair, Signature, Signer};
use solana_pubkey::Pubkey as Address;
use solana_transaction::versioned::VersionedTransaction;

fn key(n: u8) -> Pubkey {
    Pubkey { bytes: [n; 32] }
}

fn identity(keypair: &Keypair) -> Identity {
    Identity {
        pubkey: Pubkey { bytes: keypair.pubkey().to_bytes() },
        keypair: keypair.to_bytes(),
    }
}

fn sign(keypair: &Keypair, tx: &VersionedTransaction) -> Signature {
    keypair.sign_message(&bincode::serialize(&tx.message).unwrap())
}

fn text(bytes: [u8; 32]) -> String {
    Address::new_from_array(bytes).to_string()
}

///////////
// Accounts

#[test]
fn well_known_accounts_have_their_addresses() {
    assert_eq!(text(TIP_PAYMENT_PROGRAM), "T1pyyaTNZsKv2WcRAB8oVnk93mLJw2XzjtVYqCsaHqt");
    assert_eq!(text(TIP_DISTRIBUTION_PROGRAM), "4R3gSG8BpU4t19KYj8CfnbtRpnT8gtk4dvTHxVRwc2r7");
    assert_eq!(text(SYSTEM_PROGRAM), "11111111111111111111111111111111");
    assert_eq!(text(TIP_ACCOUNT_0), "96gYZGLnJYVFmbjzopPSU6QiEV5fGqZNyN9nmNhvrZU5");
    assert_eq!(text(TIP_ACCOUNT_7), "3AVi9Tg9Uo68tJfuvoKvqKNWKkC5wPdSSdeBnizKZ6jT");
    assert_ne!(TIP_PAYMENT_CONFIG, TIP_DISTRIBUTION_CONFIG);
    let tips = list_tip_accounts();
    assert_eq!(tips.len(), 8);
    assert!(tips.iter().all(is_tip_account));
    assert!(!is_tip_account(&key(7)));
}

#[test]
fn little_endian_round_trip() {
    let mut out: Vec<u8> = Vec::new();
    write_le(&mut out, 0x0102_0304_0506_0708, 8);
    assert_eq!(out, 0x0102_0304_0506_0708u64.to_le_bytes().to_vec());
    assert_eq!(read_le(&out, 0, 8), 0x0102_0304_0506_0708);
    assert_eq!(read_le(&out, 2, 2), 0x0506);
}

////////
// Locks

#[test]
fn writers_exclude_everyone_and_readers_share() {
    let mut manager = LockManager::new();
    manager.acquire(1, &vec![(key(1), true), (key(2), false)]);
    assert!(!manager.try_acquire(&vec![(key(1), false)]));
    assert!(!manager.try_acquire(&vec![(key(1), true)]));
    assert!(manager.try_acquire(&vec![(key(2), false)]));
    assert!(!manager.try_acquire(&vec![(key(2), true)]));
    assert!(manager.try_acquire(&vec![(key(3), true)]));
    assert_eq!(manager.tracked_accounts(), 2);
    manager.acquire(2, &vec![(key(2), false)]);
    manager.release(1, &vec![(key(1), true), (key(2), false)]);
    assert!(manager.try_acquire(&vec![(key(1), true)]));
    assert!(!manager.try_acquire(&vec![(key(2), true)]));
    manager.release(2, &vec![(key(2), false)]);
    assert_eq!(manager.tracked_accounts(), 0);
}

#[test]
fn refused_locks_change_nothing() {
    let mut engine = AuctionEngine::new(100);
    assert!(engine.acquire_locks(1, &vec![(key(1), true)]));
    assert!(!engine.acquire_locks(2, &vec![(key(2), true), (key(1), false)]));
    assert_eq!(engine.lock_manager.tracked_accounts(), 1);
    engine.release_locks(1, &vec![(key(1), true)]);
    assert!(engine.acquire_locks(2, &vec![(key(2), true), (key(1), false)]));
    engine.reset();
    assert_eq!(engine.lock_manager.tracked_accounts(), 0);
    assert_eq!(engine.available_cu(), 100);
}

#[test]
fn compute_units_are_reserved_committed_and_released() {
    let mut allocation = CUAllocation::new(100);
    assert!(allocation.reserve(60));
    assert!(!allocation.reserve(41));
    assert_eq!(allocation.available_cu(), 40);
    allocation.commit();
    assert_eq!(allocation.available_cu(), 40);
    assert!(allocation.reserve(40));
    allocation.release();
    assert_eq!(allocation.available_cu(), 40);
    allocation.reset();
    assert_eq!(allocation.available_cu(), 100);
}

fn candidate(cu_limit: u64, locks: Vec<(Pubkey, bool)>) -> TransactionCandidate {
    TransactionCandidate { cu_limit, all_locks: locks, priority_fee: 1 }
}

const GOOD: Verdict = Verdict { scorable: true, accepted: true };
const BAD: Verdict = Verdict { scorable: true, accepted: false };

#[test]
fn batches_respect_units_conflicts_and_verdicts() {
    let candidates = vec![
        candidate(60, vec![(key(1), true)]),
        candidate(50, vec![(key(2), true)]),
        candidate(10, vec![(key(1), false)]),
        candidate(10, vec![(key(2), true)]),
        candidate(10, vec![(key(9), true)]),
        candidate(200, vec![(key(8), true)]),
    ];
    let verdicts = vec![GOOD, GOOD, GOOD, BAD, GOOD, GOOD];
    let batches = build_batches(&candidates, &verdicts, 100);
    assert_eq!(batches.len(), 2);
    // A reader joins a writer's batch; a writer joins neither reader nor writer.
    assert_eq!(batches[0].cu_used, 80);
    assert_eq!(batches[0].len(), 3);
    assert_eq!(batches[1].cu_used, 50);
    assert!(!batches[1].is_empty());
}

#[test]
fn a_bundle_is_placed_whole_or_not() {
    let mut batches: Vec<TransactionBatch> = Vec::new();
    let conflicting =
        vec![candidate(10, vec![(key(1), true)]), candidate(10, vec![(key(1), true)])];
    assert!(build_bundle_batch(&conflicting, &GOOD, &mut batches, 100).is_none());
    assert!(batches.is_empty());
    let bundle = vec![candidate(10, vec![(key(1), true)]), candidate(20, vec![(key(2), true)])];
    assert!(build_bundle_batch(&bundle, &BAD, &mut batches, 100).is_none());
    assert!(batches.is_empty());
    let placed = build_bundle_batch(&bundle, &GOOD, &mut batches, 100).unwrap();
    assert_eq!(placed.cu_used, 30);
    assert_eq!(batches.len(), 1);
    assert_eq!(batches[0].len(), 2);
}

#[test]
fn a_candidate_that_is_not_accepted_joins_no_batch() {
    let candidates = vec![candidate(10, vec![]), candidate(10, vec![])];
    let batches = build_batches(&candidates, &vec![GOOD, BAD], 100);
    assert_eq!(batches.len(), 1);
    assert_eq!(batches[0].len(), 1);
}

#[test]
fn batches_may_be_as_large_as_a_number_can_be() {
    let candidates = vec![candidate(10, vec![]), candidate(u64::MAX - 10, vec![])];
    let batches = build_batches(&candidates, &vec![GOOD, GOOD], u64::MAX);
    assert_eq!(batches.len(), 1);
    assert_eq!(batches[0].cu_used, u64::MAX);
    let mut batches = batches;
    let placed = build_bundle_batch(&vec![candidate(10, vec![])], &GOOD, &mut batches, u64::MAX);
    assert_eq!(placed.unwrap().cu_used, 10);
    assert_eq!(batches.len(), 2);
}

#[test]
fn a_bundle_joins_a_batch_only_as_a_whole() {
    let mut first = TransactionBatch::new();
    first.add(&candidate(60, vec![]));
    let mut batches = vec![first];
    let bundle = vec![candidate(30, vec![]), candidate(30, vec![])];
    let placed = build_bundle_batch(&bundle, &GOOD, &mut batches, 100).unwrap();
    assert_eq!(placed.len(), 2);
    assert_eq!(batches.len(), 2);
    assert_eq!(batches[0].len(), 1);
    // There is room for ten more in the second batch, and for forty in the first.
    let small = vec![candidate(20, vec![]), candidate(20, vec![])];
    let placed = build_bundle_batch(&small, &BAD, &mut batches, 100).unwrap();
    assert_eq!(placed.cu_used, 100);
    assert_eq!(batches[0].len(), 3);
    // A bundle that writes what a batch locks does not join it.
    let mut held = TransactionBatch::new();
    held.add(&candidate(1, vec![(key(1), false)]));
    let mut batches = vec![held];
    let writer = vec![candidate(1, vec![]), candidate(1, vec![(key(1), true)])];
    assert_eq!(build_bundle_batch(&writer, &GOOD, &mut batches, 100).unwrap().len(), 2);
    assert_eq!(batches[0].len(), 1);
}

#[test]
fn locks_of_one_account_named_twice_are_given_up_together() {
    let mut manager = LockManager::new();
    manager.acquire(1, &vec![(key(3), false)]);
    let twice = vec![(key(1), true), (key(1), false), (key(2), false)];
    manager.acquire(2, &twice);
    assert!(manager.is_holder(2, &key(1)));
    assert!(!manager.is_holder(1, &key(1)));
    manager.release(2, &twice);
    assert_eq!(manager.tracked_accounts(), 1);
    assert!(!manager.is_holder(2, &key(1)));
}

//////////
// Workers

#[test]
fn retryable_reasons_match_the_protocol() {
    for reason in 0..=u8::MAX {
        let expected = [
            not_included_reasons::ACCOUNT_IN_USE,
            not_included_reasons::BANK_NOT_AVAILABLE,
            not_included_reasons::WOULD_EXCEED_MAX_BLOCK_COST_LIMIT,
            not_included_reasons::WOULD_EXCEED_MAX_ACCOUNT_COST_LIMIT,
            not_included_reasons::WOULD_EXCEED_ACCOUNT_DATA_BLOCK_LIMIT,
            not_included_reasons::WOULD_EXCEED_MAX_VOTE_COST_LIMIT,
            not_included_reasons::WOULD_EXCEED_ACCOUNT_DATA_TOTAL_LIMIT,
        ]
        .contains(&reason);
        assert_eq!(is_retryable(reason), expected);
    }
}

#[test]
fn leader_states_match_the_protocol() {
    assert_eq!(NOT_LEADER, agave_scheduler_bindings::NOT_LEADER);
    assert_eq!(LEADER_READY, agave_scheduler_bindings::LEADER_READY);
}

#[test]
fn inconsistent_checks_are_told_apart() {
    let ok = CheckResponse {
        parsing_and_sanitization_flags: 0,
        status_check_flags: 3,
        fee_payer_balance_flags: 3,
        resolve_flags: 3,
    };
    assert!(ok.is_consistent());
    assert!(ok.failed_check().is_none());
    assert!(!CheckResponse { status_check_flags: 1, ..ok }.is_consistent());
    assert!(!CheckResponse { parsing_and_sanitization_flags: 1, resolve_flags: 7, ..ok }
        .is_consistent());
    assert!(CheckResponse { resolve_flags: 7, ..ok }.failed_check().is_some());
}

#[test]
fn the_budget_follows_the_slot() {
    let progress = ProgressMessage {
        leader_state: LEADER_READY,
        current_slot_progress: 25,
        current_slot: 1,
        next_leader_slot: 1,
        remaining_cost_units: 50_000_000,
    };
    // 45% of the block, less ten million used and five in flight.
    assert_eq!(block_budget(&progress, 20, 5_000_000), 12_000_000);
    let late = ProgressMessage { current_slot_progress: 95, ..progress };
    assert_eq!(block_budget(&late, 20, 0), 50_000_000);
    let full = ProgressMessage { remaining_cost_units: 0, ..progress };
    assert_eq!(block_budget(&full, 20, 0), 0);
}

///////////////
// Tip programs

#[test]
fn tip_transactions_are_signed_by_the_identity() {
    let keypair = Keypair::new();
    let id = identity(&keypair);
    let args = TipDistributionArgs {
        vote_account: key(5),
        merkle_authority: key(6),
        commission_bps: 700,
    };
    let (account, init) = init_tip_distribution(&id, &args, 3, &[9; 32]).unwrap();
    let tx: VersionedTransaction = bincode::deserialize(&init).unwrap();
    assert_eq!(tx.message.static_account_keys()[0], keypair.pubkey());
    assert_eq!(tx.signatures, vec![sign(&keypair, &tx)]);
    assert_eq!(tx.message.recent_blockhash().to_bytes(), [9; 32]);
    let (expected, _) = Address::find_program_address(
        &[b"TIP_DISTRIBUTION_ACCOUNT", &[5; 32], &3u64.to_le_bytes()],
        &Address::new_from_array(TIP_DISTRIBUTION_PROGRAM),
    );
    assert_eq!(account.bytes, expected.to_bytes());

    let change = ChangeTipReceiverArgs {
        old_tip_receiver: key(1),
        new_tip_receiver: account,
        old_block_builder: key(2),
        new_block_builder: key(3),
        block_builder_commission: 5,
    };
    let packet = change_tip_receiver(&id, &change, &[9; 32]).unwrap();
    let tx: VersionedTransaction = bincode::deserialize(&packet).unwrap();
    assert_eq!(tx.signatures, vec![sign(&keypair, &tx)]);
    assert_eq!(tx.message.instructions().len(), 2);

    // Bytes that are no key pair sign nothing.
    let broken = Identity { keypair: [1; 64], ..id };
    assert!(change_tip_receiver(&broken, &change, &[9; 32]).is_none());
}

///////////////
// Block engine

#[test]
fn tip_config_is_read_from_its_offsets() {
    let mut data = vec![0u8; 80];
    data[8..40].copy_from_slice(&[1; 32]);
    data[40..72].copy_from_slice(&[2; 32]);
    match on_tip_config(&data) {
        JitoUpdate::TipConfig(config) => {
            assert_eq!(config.tip_receiver, key(1));
            assert_eq!(config.block_builder, key(2));
        }
        _ => panic!("not a tip config"),
    }
}

#[test]
fn empty_bundles_are_not_passed_on() {
    let updates = on_bundles(vec![
        Some(vec![vec![1], vec![2]]),
        None,
        Some(vec![]),
        Some(vec![vec![3]]),
    ]);
    assert_eq!(updates.len(), 2);
    assert!(matches!(&updates[0], JitoUpdate::Bundle(b) if *b == vec![vec![1u8], vec![2]]));
    assert!(matches!(&updates[1], JitoUpdate::Bundle(b) if *b == vec![vec![3u8]]));
    assert_eq!(on_packets(None).len(), 0);
    let packets = on_packets(Some(vec![vec![7], vec![]]));
    assert_eq!(packets.len(), 2);
    assert!(matches!(&packets[0], JitoUpdate::Packet(p) if *p == vec![7u8]));
}

fn token(value: &str, has_expiry: bool) -> Option<AuthToken> {
    Some(AuthToken { value: value.to_string(), has_expiry })
}

#[test]
fn tokens_must_be_there_and_expire() {
    let good = validate_tokens(token("a", true), token("r", true)).unwrap();
    assert_eq!(authorization(&good), "Bearer a");
    let faults = [
        (validate_tokens(None, None), AuthError::MissingAccessToken, "Missing access token"),
        (
            validate_tokens(token("a", false), None),
            AuthError::MissingAccessExpiry,
            "Missing access expiry",
        ),
        (
            validate_tokens(token("a", true), None),
            AuthError::MissingRefreshToken,
            "Missing refresh token",
        ),
        (
            validate_tokens(token("a", true), token("r", false)),
            AuthError::MissingRefreshExpiry,
            "Missing refresh expiry",
        ),
    ];
    for (result, error, message) in faults {
        assert_eq!(result.err(), Some(error));
        assert_eq!(auth_error_message(error), message);
    }
}

#[test]
fn tls_is_for_https() {
    assert!(enable_tls("https://frankfurt.mainnet.block-engine.jito.wtf"));
    assert!(enable_tls("https"));
    assert!(!enable_tls("http://localhost"));
    assert!(!enable_tls(""));
}

#[test]
fn a_session_runs_from_challenge_to_stream() {
    let keypair = Keypair::new();
    let mut session = Session::new(identity(&keypair));
    match session.step(SessionEvent::Connected) {
        SessionAction::RequestChallenge { pubkey } => {
            assert_eq!(pubkey.bytes, keypair.pubkey().to_bytes());
        }
        other => panic!("{other:?}"),
    }
    match session.step(SessionEvent::Challenge("abc".to_string())) {
        SessionAction::RequestTokens { signed, .. } => {
            assert_eq!(signed.challenge, format!("{}-abc", keypair.pubkey()));
            let expected = keypair.sign_message(signed.challenge.as_bytes());
            assert_eq!(signed.signature, expected.as_array().to_vec());
        }
        other => panic!("{other:?}"),
    }
    match session
        .step(SessionEvent::Tokens { access: token("t", true), refresh: token("r", true) })
    {
        SessionAction::Subscribe { authorization } => assert_eq!(authorization, "Bearer t"),
        other => panic!("{other:?}"),
    }
    let builder = Keypair::new().pubkey();
    match session.step(SessionEvent::Builder { key: builder.to_string(), commission: 5 }) {
        SessionAction::Forward(updates) => match &updates[..] {
            [JitoUpdate::BuilderConfig(config)] => {
                assert_eq!(config.key.bytes, builder.to_bytes());
                assert_eq!(config.commission, 5);
            }
            other => panic!("{other:?}"),
        },
        other => panic!("{other:?}"),
    }
    match session.step(SessionEvent::Blockhash([4; 32])) {
        SessionAction::Forward(updates) => {
            assert!(matches!(updates[..], [JitoUpdate::RecentBlockhash(hash)] if hash == [4; 32]));
        }
        other => panic!("{other:?}"),
    }
    let closed = session.step(SessionEvent::Bundles(None));
    assert!(matches!(closed, SessionAction::Abort(SessionError::BundlesClosed)));
    assert_eq!(session.stage, Stage::Closed);
}

fn streaming() -> Session {
    Session { identity: identity(&Keypair::new()), stage: Stage::Streaming }
}

#[test]
fn every_fault_ends_a_session() {
    let abort = |session: &mut Session, event: SessionEvent| match session.step(event) {
        SessionAction::Abort(error) => {
            assert_eq!(session.stage, Stage::Closed);
            error
        }
        other => panic!("{other:?}"),
    };
    assert_eq!(abort(&mut streaming(), SessionEvent::Failed), SessionError::Transport);
    assert_eq!(
        abort(&mut streaming(), SessionEvent::TipConfig(None)),
        SessionError::TipConfigClosed
    );
    assert_eq!(
        abort(&mut streaming(), SessionEvent::TipConfig(Some(vec![0; 71]))),
        SessionError::TipConfigShort
    );
    assert_eq!(
        abort(&mut streaming(), SessionEvent::Packets(None)),
        SessionError::BundlesClosed
    );
    let large = vec![None, Some(vec![vec![0; 1232], vec![0; 1233]])];
    assert_eq!(
        abort(&mut streaming(), SessionEvent::Bundles(Some(large))),
        SessionError::PacketTooLarge
    );
    assert_eq!(abort(&mut streaming(), SessionEvent::Connected), SessionError::Unexpected);
    let mut subscribing = Session { stage: Stage::Subscribing, ..streaming() };
    let bad_key = SessionEvent::Builder { key: "no address".to_string(), commission: 0 };
    assert_eq!(abort(&mut subscribing, bad_key), SessionError::BuilderKey);
    let mut unsigned = Session {
        identity: Identity { pubkey: key(1), keypair: [1; 64] },
        stage: Stage::Challenged,
    };
    assert_eq!(
        abort(&mut unsigned, SessionEvent::Challenge(String::new())),
        SessionError::Identity
    );
    let mut authorizing = Session { stage: Stage::Authorizing, ..streaming() };
    assert_eq!(
        abort(&mut authorizing, SessionEvent::Tokens { access: None, refresh: None }),
        SessionError::Auth(AuthError::MissingAccessToken)
    );
}

////////
// Setup

#[test]
fn defaults_configure_nothing() {
    let config = ConfigData::default();
    assert!(config.logs_server.is_none());
    assert!(config.filter_keys.is_empty());
    assert_eq!(select_scheduler(&config.scheduler), Err(SetupError::NoScheduler));
}

#[test]
fn the_auction_is_selected_first() {
    let batch = SchedulerConfig { batch: Some(Default::default()), auction: None };
    assert_eq!(select_scheduler(&batch), Ok(Selection::Batch));
    let both =
        SchedulerConfig { batch: Some(Default::default()), auction: Some(Default::default()) };
    assert_eq!(select_scheduler(&both), Ok(Selection::Auction));
}

#[test]
fn arguments_follow_the_configuration() {
    let keypair = Keypair::new();
    let vote = Keypair::new().pubkey();
    let merkle = Keypair::new().pubkey();
    let mut config = BatchSchedulerConfigData::default();
    config.tip.vote_account = vote.to_string();
    config.tip.merkle_authority = merkle.to_string();
    config.tip.commission_bps = 42;
    config.jito.block_engine = "https://engine".to_string();
    config.progress_timeout_sec = u64::MAX;
    let args = batch_args(&config, vec![key(3)], identity(&keypair)).unwrap();
    assert_eq!(args.tip.vote_account.bytes, vote.to_bytes());
    assert_eq!(args.tip.merkle_authority.bytes, merkle.to_bytes());
    assert_eq!(args.tip.commission_bps, 42);
    assert_eq!(args.jito.block_engine, "https://engine");
    assert_eq!(args.filter_keys, vec![key(3)]);
    assert_eq!(args.unchecked_capacity, 65536);
    assert_eq!(args.runtime.max_check_batches, 4);
    assert_eq!(args.runtime.bundle_expiry, 200_000_000);
    assert_eq!(args.runtime.progress_timeout, u64::MAX);

    let mut auction = AuctionBatchSchedulerConfigData::default();
    assert_eq!(
        auction_args(&auction, vec![], identity(&keypair)).err(),
        Some(SetupError::VoteAccount)
    );
    auction.tip.vote_account = vote.to_string();
    assert_eq!(
        auction_args(&auction, vec![], identity(&keypair)).err(),
        Some(SetupError::MerkleAuthority)
    );
    auction.tip.merkle_authority = merkle.to_string();
    assert_eq!(
        auction_args(&auction, vec![], identity(&keypair)).unwrap().scoring.min_score,
        0
    );
    auction.scoring = Some(AuctionBatchScoringConfig { min_score: 77 });
    let args = auction_args(&auction, vec![], identity(&keypair)).unwrap();
    assert_eq!(args.scoring.min_score, 77);
    assert_eq!(args.runtime.progress_timeout, 5_000_000_000);
}

#[test]
fn durations_are_in_nanoseconds() {
    assert_eq!(nanos_from_secs(5), 5_000_000_000);
    assert_eq!(nanos_from_millis(200), 200_000_000);
    assert_eq!(nanos_from_secs(u64::MAX), u64::MAX);
}

#[test]
fn the_first_failure_counts() {
    let well: Vec<Result<(), u8>> = vec![Ok(()), Ok(())];
    assert_eq!(first_failure(well), Ok(()));
    assert_eq!(first_failure(vec![Ok(()), Err(1), Err(2)]), Err(1));
}

#[test]
fn intervals_start_and_yield() {
    assert_eq!(interval_step(false, true), IntervalStep::Start);
    assert_eq!(interval_step(true, true), IntervalStep::Yield);
    assert_eq!(interval_step(true, false), IntervalStep::Wait);
    assert_eq!(interval_step(false, false), IntervalStep::Wait);
}

#[test]
fn an_update_is_taken_over_whole_or_not() {
    let address = Keypair::new().pubkey();
    let mut config = ConfigData::default();
    config.filter_keys = vec![key(1)];
    let mut batch = BatchSchedulerConfigData::default();
    batch.bundle_capacity = 7;

    let texts = vec![address.to_string(), "no address".to_string()];
    assert!(read_keys(&texts).is_none());
    assert_eq!(config.update(Some(texts), Some(batch.clone())), Err(UpdateError::FilterKey));
    assert_eq!(config.filter_keys, vec![key(1)]);
    assert!(config.scheduler.batch.is_none());

    assert_eq!(config.update(None, Some(batch)), Ok(()));
    assert_eq!(config.filter_keys, vec![key(1)]);
    assert_eq!(config.scheduler.batch.as_ref().unwrap().bundle_capacity, 7);

    assert_eq!(config.update(Some(vec![address.to_string()]), None), Ok(()));
    assert_eq!(config.filter_keys, vec![Pubkey { bytes: address.to_bytes() }]);
    assert_eq!(config.scheduler.batch.unwrap().bundle_capacity, 7);

    assert_eq!(collect_keys(&vec![Some([1; 32]), Some([2; 32])]), Some(vec![key(1), key(2)]));
    assert_eq!(collect_keys(&vec![Some([1; 32]), None]), None);
}

#[test]
fn another_kind_of_scheduler_takes_a_restart() {
    assert_eq!(update_status(None), UpdateStatus::Applied);
    assert_eq!(update_status(Some(SchedulerKind::JitoScheduler)), UpdateStatus::Applied);
    assert_eq!(update_status(Some(SchedulerKind::Fifo)), UpdateStatus::SchedulerTypeChanged);
    assert_eq!(
        update_status(Some(SchedulerKind::GreedyRevenue)),
        UpdateStatus::SchedulerTypeChanged
    );
    assert_eq!(
        update_status(Some(SchedulerKind::GreedyThroughput)),
        UpdateStatus::SchedulerTypeChanged
    );
}

#[test]
fn entries_are_ordered_by_priority_cost_and_key() {
    let id = |priority, cost, key| PriorityId { priority, cost, key };
    assert!(id(1, 9, 9) < id(2, 0, 0));
    assert!(id(2, 1, 9) < id(2, 2, 0));
    assert!(id(2, 2, 1) < id(2, 2, 2));
    assert!(id(1, 9, 9).is_before(&id(2, 0, 0)));
    assert!(!id(2, 2, 2).is_before(&id(2, 2, 2)));
    assert_eq!(PriorityId::from_triple(id(3, 4, 5).to_triple()), id(3, 4, 5));
}

#[test]
fn the_engine_shows_its_locks_and_units() {
    let mut engine = AuctionEngine::new(100);
    assert!(engine.acquire_locks(7, &vec![(key(1), true)]));
    assert_eq!(engine.lock_manager().tracked_accounts(), 1);
    assert_eq!(engine.cu_allocation().max_cu, 100);
}
