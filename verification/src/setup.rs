//! From the configuration to a running scheduler.

use vstd::prelude::*;
use std::str::FromStr;
use solana_pubkey::Pubkey as Address;

use crate::auction_scheduler::{
    AuctionBatchConfig, AuctionBatchScheduler, AuctionBatchSchedulerArgs,
};
use crate::batch_scheduler::{BatchScheduler, BatchSchedulerArgs};
use crate::config_store::{
    AuctionBatchSchedulerConfigData, BatchSchedulerConfigData, ConfigData, JitoConfigData,
    SchedulerConfig, TipDistributionConfigData,
};
use crate::costs::capped;
use crate::jito::JitoArgs;
use crate::pubkey::Pubkey;
use crate::scheduler_model::{CoreModel, RuntimeConfig};
use crate::tip_program::{Identity, TipDistributionArgs};

verus! {

/// Workers that a scheduler asks the validator for.
pub const WORKER_THREADS: usize = 5;

/// Which scheduler to run.
#[derive(Clone, Copy, Debug, PartialEq, Eq, Structural)]
pub enum Selection {
    Auction,
    Batch,
}

/// Why a scheduler cannot be set up.
#[derive(Clone, Copy, Debug, PartialEq, Eq, Structural)]
pub enum SetupError {
    /// Neither a batch nor an auction scheduler is configured.
    NoScheduler,
    /// The vote account is no address.
    VoteAccount,
    /// The authority over the merkle root is no address.
    MerkleAuthority,
}

/// The address that a text in base 58 stands for.
pub uninterp spec fn parsed_address(text: Seq<char>) -> Option<[u8; 32]>;

/// `FromStr` of `solana_pubkey::Pubkey`: the address is a function of the text.
#[verifier::external_body]
pub(crate) fn parse_address(text: &str) -> (r: Option<[u8; 32]>)
    ensures
        r == parsed_address(text@),
{
    Address::from_str(text).ok().map(|address| address.to_bytes())
}

/// Some addresses, if none is missing.
pub fn collect_keys(addresses: &Vec<Option<[u8; 32]>>) -> (r: Option<Vec<Pubkey>>)
    ensures
        match r {
            Some(keys) => {
                &&& keys@.len() == addresses@.len()
                &&& forall|i: int|
                    0 <= i < keys@.len() ==> addresses@[i] == Some((#[trigger] keys@[i]).bytes)
            },
            None => exists|i: int| 0 <= i < addresses@.len() && #[trigger] addresses@[i] is None,
        },
{
    let mut keys: Vec<Pubkey> = Vec::new();
    let mut i: usize = 0;
    while i < addresses.len()
        invariant
            0 <= i <= addresses@.len(),
            keys@.len() == i,
            forall|j: int| 0 <= j < i ==> addresses@[j] == Some((#[trigger] keys@[j]).bytes),
        decreases addresses@.len() - i,
    {
        match addresses[i] {
            Some(bytes) => keys.push(Pubkey { bytes }),
            None => {
                assert(addresses@[i as int] is None);
                return None;
            },
        }
        i = i + 1;
    }
    Some(keys)
}

/// Whether these keys are what the texts stand for.
pub open spec fn stand_for(texts: Seq<String>, keys: Seq<Pubkey>) -> bool {
    &&& keys.len() == texts.len()
    &&& forall|i: int|
        0 <= i < keys.len() ==> parsed_address(texts[i]@) == Some((#[trigger] keys[i]).bytes)
}

/// The keys that some texts stand for, if each is an address.
pub fn read_keys(texts: &Vec<String>) -> (r: Option<Vec<Pubkey>>)
    ensures
        match r {
            Some(keys) => stand_for(texts@, keys@),
            None => exists|i: int|
                0 <= i < texts@.len() && parsed_address((#[trigger] texts@[i])@) is None,
        },
{
    let mut addresses: Vec<Option<[u8; 32]>> = Vec::new();
    let mut i: usize = 0;
    while i < texts.len()
        invariant
            0 <= i <= texts@.len(),
            addresses@.len() == i,
            forall|j: int| 0 <= j < i ==> #[trigger] addresses@[j] == parsed_address(texts@[j]@),
        decreases texts@.len() - i,
    {
        addresses.push(parse_address(texts[i].as_str()));
        i = i + 1;
    }
    let r = collect_keys(&addresses);
    proof {
        if r is None {
            let i = choose|i: int| 0 <= i < addresses@.len() && #[trigger] addresses@[i] is None;
            assert(parsed_address(texts@[i]@) is None);
        }
    }
    r
}

/// Which scheduler is configured; the auction goes first.
pub fn select_scheduler(config: &SchedulerConfig) -> (r: Result<Selection, SetupError>)
    ensures
        r == (if config.auction is Some {
            Ok::<Selection, SetupError>(Selection::Auction)
        } else if config.batch is Some {
            Ok(Selection::Batch)
        } else {
            Err(SetupError::NoScheduler)
        }),
{
    match (&config.auction, &config.batch) {
        (Some(_), _) => Ok(Selection::Auction),
        (None, Some(_)) => Ok(Selection::Batch),
        (None, None) => Err(SetupError::NoScheduler),
    }
}

/// How tips are distributed, from the addresses that the configuration names.
pub open spec fn tip_args_of(
    vote_account: Option<[u8; 32]>,
    merkle_authority: Option<[u8; 32]>,
    commission_bps: u16,
) -> Result<TipDistributionArgs, SetupError> {
    match (vote_account, merkle_authority) {
        (Some(vote_account), Some(merkle_authority)) => Ok(
            TipDistributionArgs {
                vote_account: Pubkey { bytes: vote_account },
                merkle_authority: Pubkey { bytes: merkle_authority },
                commission_bps,
            },
        ),
        (None, _) => Err(SetupError::VoteAccount),
        (Some(_), None) => Err(SetupError::MerkleAuthority),
    }
}

/// How tips are distributed, from the addresses that the configuration names.
pub fn tip_args(
    vote_account: Option<[u8; 32]>,
    merkle_authority: Option<[u8; 32]>,
    commission_bps: u16,
) -> (r: Result<TipDistributionArgs, SetupError>)
    ensures
        r == tip_args_of(vote_account, merkle_authority, commission_bps),
{
    match (vote_account, merkle_authority) {
        (Some(vote_account), Some(merkle_authority)) => Ok(
            TipDistributionArgs {
                vote_account: Pubkey { bytes: vote_account },
                merkle_authority: Pubkey { bytes: merkle_authority },
                commission_bps,
            },
        ),
        (None, _) => Err(SetupError::VoteAccount),
        (Some(_), None) => Err(SetupError::MerkleAuthority),
    }
}

/// How tips are distributed, according to the configuration.
pub open spec fn configured_tip(config: TipDistributionConfigData) -> Result<
    TipDistributionArgs,
    SetupError,
> {
    tip_args_of(
        parsed_address(config.vote_account@),
        parsed_address(config.merkle_authority@),
        config.commission_bps,
    )
}

/// How tips are distributed, according to the configuration.
pub fn read_tip(config: &TipDistributionConfigData) -> (r: Result<TipDistributionArgs, SetupError>)
    ensures
        r == configured_tip(*config),
{
    tip_args(
        parse_address(config.vote_account.as_str()),
        parse_address(config.merkle_authority.as_str()),
        config.commission_bps,
    )
}

/// Where the block engine and the cluster are reached, according to the
/// configuration.
pub fn read_jito(config: &JitoConfigData) -> (r: JitoArgs)
    ensures
        r.http_rpc@ == config.http_rpc@,
        r.ws_rpc@ == config.ws_rpc@,
        r.block_engine@ == config.block_engine@,
{
    JitoArgs {
        http_rpc: config.http_rpc.clone(),
        ws_rpc: config.ws_rpc.clone(),
        block_engine: config.block_engine.clone(),
    }
}

/// Seconds in nanoseconds, as far as they fit.
pub fn nanos_from_secs(secs: u64) -> (nanos: u64)
    ensures
        nanos == capped(secs * 1_000_000_000),
{
    crate::costs::capped_mul(secs, 1_000_000_000)
}

/// Milliseconds in nanoseconds, as far as they fit.
pub fn nanos_from_millis(millis: u64) -> (nanos: u64)
    ensures
        nanos == capped(millis * 1_000_000),
{
    crate::costs::capped_mul(millis, 1_000_000)
}

/// The values that can be changed while a scheduler runs.
pub open spec fn configured_runtime(
    max_check_batches: u8,
    block_fill_cutoff: u8,
    progress_timeout_sec: u64,
    bundle_expiry_ms: u64,
) -> RuntimeConfig {
    RuntimeConfig {
        max_check_batches: max_check_batches as usize,
        block_fill_cutoff,
        progress_timeout: capped(progress_timeout_sec * 1_000_000_000),
        bundle_expiry: capped(bundle_expiry_ms * 1_000_000),
    }
}

/// The values that can be changed while a scheduler runs.
pub fn read_runtime(
    max_check_batches: u8,
    block_fill_cutoff: u8,
    progress_timeout_sec: u64,
    bundle_expiry_ms: u64,
) -> (r: RuntimeConfig)
    ensures
        r == configured_runtime(
            max_check_batches,
            block_fill_cutoff,
            progress_timeout_sec,
            bundle_expiry_ms,
        ),
{
    RuntimeConfig {
        max_check_batches: max_check_batches as usize,
        block_fill_cutoff,
        progress_timeout: nanos_from_secs(progress_timeout_sec),
        bundle_expiry: nanos_from_millis(bundle_expiry_ms),
    }
}

/// What the batch scheduler is started with, according to the configuration.
pub fn batch_args(
    config: &BatchSchedulerConfigData,
    filter_keys: Vec<Pubkey>,
    keypair: Identity,
) -> (r: Result<BatchSchedulerArgs, SetupError>)
    ensures
        match r {
            Ok(args) => {
                &&& configured_tip(config.tip) == Ok::<TipDistributionArgs, SetupError>(args.tip)
                &&& args.jito.http_rpc@ == config.jito.http_rpc@
                &&& args.jito.ws_rpc@ == config.jito.ws_rpc@
                &&& args.jito.block_engine@ == config.jito.block_engine@
                &&& args.keypair == keypair
                &&& args.filter_keys == filter_keys
                &&& args.unchecked_capacity == config.unchecked_capacity
                &&& args.checked_capacity == config.checked_capacity
                &&& args.bundle_capacity == config.bundle_capacity
                &&& args.runtime == configured_runtime(
                    config.max_check_batches,
                    config.block_fill_cutoff,
                    config.progress_timeout_sec,
                    config.bundle_expiry_ms,
                )
            },
            Err(error) => configured_tip(config.tip) == Err::<TipDistributionArgs, SetupError>(
                error,
            ),
        },
{
    let tip = match read_tip(&config.tip) {
        Ok(tip) => tip,
        Err(error) => {
            return Err(error);
        },
    };
    Ok(
        BatchSchedulerArgs {
            tip,
            jito: read_jito(&config.jito),
            keypair,
            filter_keys,
            unchecked_capacity: config.unchecked_capacity,
            checked_capacity: config.checked_capacity,
            bundle_capacity: config.bundle_capacity,
            runtime: read_runtime(
                config.max_check_batches,
                config.block_fill_cutoff,
                config.progress_timeout_sec,
                config.bundle_expiry_ms,
            ),
        },
    )
}

/// What the auction scheduler is started with, according to the configuration;
/// without a minimum score, none is asked for.
pub fn auction_args(
    config: &AuctionBatchSchedulerConfigData,
    filter_keys: Vec<Pubkey>,
    keypair: Identity,
) -> (r: Result<AuctionBatchSchedulerArgs, SetupError>)
    ensures
        match r {
            Ok(args) => {
                &&& configured_tip(config.tip) == Ok::<TipDistributionArgs, SetupError>(args.tip)
                &&& args.jito.http_rpc@ == config.jito.http_rpc@
                &&& args.jito.ws_rpc@ == config.jito.ws_rpc@
                &&& args.jito.block_engine@ == config.jito.block_engine@
                &&& args.keypair == keypair
                &&& args.filter_keys == filter_keys
                &&& args.unchecked_capacity == config.unchecked_capacity
                &&& args.checked_capacity == config.checked_capacity
                &&& args.bundle_capacity == config.bundle_capacity
                &&& args.runtime == configured_runtime(
                    config.max_check_batches,
                    config.block_fill_cutoff,
                    config.progress_timeout_sec,
                    config.bundle_expiry_ms,
                )
                &&& args.scoring.min_score == match config.scoring {
                    Some(scoring) => scoring.min_score,
                    None => 0,
                }
            },
            Err(error) => configured_tip(config.tip) == Err::<TipDistributionArgs, SetupError>(
                error,
            ),
        },
{
    let tip = match read_tip(&config.tip) {
        Ok(tip) => tip,
        Err(error) => {
            return Err(error);
        },
    };
    let scoring = match &config.scoring {
        Some(scoring) => AuctionBatchConfig { min_score: scoring.min_score },
        None => AuctionBatchConfig::default(),
    };
    Ok(
        AuctionBatchSchedulerArgs {
            tip,
            jito: read_jito(&config.jito),
            keypair,
            filter_keys,
            unchecked_capacity: config.unchecked_capacity,
            checked_capacity: config.checked_capacity,
            bundle_capacity: config.bundle_capacity,
            runtime: read_runtime(
                config.max_check_batches,
                config.block_fill_cutoff,
                config.progress_timeout_sec,
                config.bundle_expiry_ms,
            ),
            scoring,
        },
    )
}

impl BatchScheduler {
    /// Takes over the values that can be changed while the scheduler runs, if a
    /// batch scheduler is configured.
    pub fn apply_config(&mut self, config: &SchedulerConfig)
        requires
            old(self).wf(),
        ensures
            final(self).wf(),
            final(self).in_flight_locks == old(self).in_flight_locks,
            final(self).core@ == match config.batch {
                Some(batch) => CoreModel {
                    unchecked_capacity: batch.unchecked_capacity,
                    checked_capacity: batch.checked_capacity,
                    bundle_capacity: batch.bundle_capacity,
                    runtime: configured_runtime(
                        batch.max_check_batches,
                        batch.block_fill_cutoff,
                        batch.progress_timeout_sec,
                        batch.bundle_expiry_ms,
                    ),
                    ..old(self).core@
                },
                None => old(self).core@,
            },
    {
        match &config.batch {
            Some(batch) => {
                self.set_runtime_config(
                    batch.unchecked_capacity,
                    batch.checked_capacity,
                    batch.bundle_capacity,
                    batch.block_fill_cutoff,
                    batch.max_check_batches as usize,
                    nanos_from_millis(batch.bundle_expiry_ms),
                    nanos_from_secs(batch.progress_timeout_sec),
                );
            },
            None => {},
        }
    }
}

impl AuctionBatchScheduler {
    /// Takes over the values that can be changed while the scheduler runs, if an
    /// auction scheduler is configured.
    pub fn apply_config(&mut self, config: &SchedulerConfig)
        requires
            old(self).wf(),
        ensures
            final(self).wf(),
            final(self).auction_engine == old(self).auction_engine,
            final(self).scoring == old(self).scoring,
            final(self).core@ == match config.auction {
                Some(auction) => CoreModel {
                    unchecked_capacity: auction.unchecked_capacity,
                    checked_capacity: auction.checked_capacity,
                    bundle_capacity: auction.bundle_capacity,
                    runtime: configured_runtime(
                        auction.max_check_batches,
                        auction.block_fill_cutoff,
                        auction.progress_timeout_sec,
                        auction.bundle_expiry_ms,
                    ),
                    ..old(self).core@
                },
                None => old(self).core@,
            },
    {
        match &config.auction {
            Some(auction) => {
                self.set_runtime_config(
                    auction.unchecked_capacity,
                    auction.checked_capacity,
                    auction.bundle_capacity,
                    auction.block_fill_cutoff,
                    auction.max_check_batches as usize,
                    nanos_from_millis(auction.bundle_expiry_ms),
                    nanos_from_secs(auction.progress_timeout_sec),
                );
            },
            None => {},
        }
    }
}

/// How all threads together ended: as the first one that failed did, or well.
pub fn first_failure<E>(exits: Vec<Result<(), E>>) -> (r: Result<(), E>)
    ensures
        match r {
            Ok(_) => forall|i: int| 0 <= i < exits@.len() ==> (#[trigger] exits@[i]) is Ok,
            Err(error) => exists|i: int|
                0 <= i < exits@.len() && #[trigger] exits@[i] == Err::<(), E>(error) && forall|j: int|
                    0 <= j < i ==> (#[trigger] exits@[j]) is Ok,
        },
{
    let ghost all = exits@;
    let ghost mut done: int = 0;
    for exit in it: exits
        invariant
            it.seq() == all,
            all == exits@,
            done == it.index(),
            forall|i: int| 0 <= i < done ==> (#[trigger] all[i]) is Ok,
    {
        assert(exit == all[done]);
        match exit {
            Ok(_) => {},
            Err(error) => {
                assert(all[done] == Err::<(), E>(error));
                return Err(error);
            },
        }
        proof {
            done = done + 1;
        }
    }
    Ok(())
}

/// What a source of periodic values does next.
#[derive(Clone, Copy, Debug, PartialEq, Eq, Structural)]
pub enum IntervalStep {
    /// A value came: hand it out.
    Yield,
    /// The next interval began: ask for a value, and wait for it.
    Start,
    /// Nothing came.
    Wait,
}

/// What a source of periodic values does next. While a value is awaited, only
/// that counts; otherwise, whether an interval began.
pub fn interval_step(awaiting: bool, ready: bool) -> (step: IntervalStep)
    ensures
        step == (if !ready {
            IntervalStep::Wait
        } else if awaiting {
            IntervalStep::Yield
        } else {
            IntervalStep::Start
        }),
{
    match (awaiting, ready) {
        (true, true) => IntervalStep::Yield,
        (false, true) => IntervalStep::Start,
        (_, false) => IntervalStep::Wait,
    }
}

/// The kinds of scheduler that an update of the configuration may name.
#[derive(Clone, Copy, Debug, PartialEq, Eq, Structural)]
pub enum SchedulerKind {
    JitoScheduler,
    Fifo,
    GreedyRevenue,
    GreedyThroughput,
}

/// What is answered to an update of the configuration.
#[derive(Clone, Copy, Debug, PartialEq, Eq, Structural)]
pub enum UpdateStatus {
    Applied,
    SchedulerTypeChanged,
}

/// Why an update of the configuration is refused.
#[derive(Clone, Copy, Debug, PartialEq, Eq, Structural)]
pub enum UpdateError {
    /// A key to filter is no address.
    FilterKey,
}

impl ConfigData {
    /// Takes over what an update names: the keys to filter, and how the batch
    /// scheduler runs. Nothing changes if one of the keys is no address.
    pub fn update(
        &mut self,
        filter_keys: Option<Vec<String>>,
        batch: Option<BatchSchedulerConfigData>,
    ) -> (r: Result<(), UpdateError>)
        ensures
            r == Err::<(), UpdateError>(UpdateError::FilterKey) <==> (filter_keys matches Some(texts)
                && exists|i: int|
                0 <= i < texts@.len() && parsed_address((#[trigger] texts@[i])@) is None),
            r is Err ==> *final(self) == *old(self),
            r is Ok ==> {
                &&& final(self).logs_server == old(self).logs_server
                &&& final(self).scheduler.auction == old(self).scheduler.auction
                &&& final(self).scheduler.batch == (if batch is Some {
                    batch
                } else {
                    old(self).scheduler.batch
                })
                &&& match filter_keys {
                    Some(texts) => stand_for(texts@, final(self).filter_keys@),
                    None => final(self).filter_keys == old(self).filter_keys,
                }
            },
    {
        if let Some(texts) = filter_keys {
            match read_keys(&texts) {
                Some(keys) => {
                    proof {
                        assert forall|i: int| 0 <= i < texts@.len() implies parsed_address(
                            (#[trigger] texts@[i])@,
                        ) is Some by {
                            assert(parsed_address(texts@[i]@) == Some(keys@[i].bytes));
                        }
                    }
                    self.filter_keys = keys;
                },
                None => {
                    return Err(UpdateError::FilterKey);
                },
            }
        }
        if batch.is_some() {
            self.scheduler.batch = batch;
        }
        Ok(())
    }
}

/// What is answered to an update of the configuration: naming another kind of
/// scheduler than the running one takes a restart.
pub fn update_status(scheduler: Option<SchedulerKind>) -> (status: UpdateStatus)
    ensures
        status == (match scheduler {
            Some(kind) => if kind == SchedulerKind::JitoScheduler {
                UpdateStatus::Applied
            } else {
                UpdateStatus::SchedulerTypeChanged
            },
            None => UpdateStatus::Applied,
        }),
{
    match scheduler {
        Some(SchedulerKind::Fifo) | Some(SchedulerKind::GreedyRevenue) | Some(
            SchedulerKind::GreedyThroughput,
        ) => UpdateStatus::SchedulerTypeChanged,
        Some(SchedulerKind::JitoScheduler) | None => UpdateStatus::Applied,
    }
}

} // verus!
