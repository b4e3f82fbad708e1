//! The configuration of the schedulers, and its defaults.

use vstd::prelude::*;

use crate::pubkey::Pubkey;

verus! {

/// The whole configuration.
#[derive(Clone, Debug)]
pub struct ConfigData {
    /// Where events are sent, if anywhere.
    pub logs_server: Option<String>,
    /// Accounts whose transactions are refused.
    pub filter_keys: Vec<Pubkey>,
    pub scheduler: SchedulerConfig,
}

impl Default for ConfigData {
    fn default() -> (r: Self)
        ensures
            r.logs_server is None,
            r.filter_keys@ == Seq::<Pubkey>::empty(),
            r.scheduler.batch is None,
            r.scheduler.auction is None,
    {
        ConfigData {
            logs_server: None,
            filter_keys: Vec::new(),
            scheduler: SchedulerConfig::default(),
        }
    }
}

/// Which scheduler to run, and how.
#[derive(Clone, Debug)]
pub struct SchedulerConfig {
    pub batch: Option<BatchSchedulerConfigData>,
    pub auction: Option<AuctionBatchSchedulerConfigData>,
}

impl Default for SchedulerConfig {
    fn default() -> (r: Self)
        ensures
            r.batch is None,
            r.auction is None,
    {
        SchedulerConfig { batch: None, auction: None }
    }
}

/// Configuration of the auction batch scheduler.
#[derive(Clone, Debug)]
pub struct AuctionBatchSchedulerConfigData {
    pub keypair_path: String,
    pub tip: TipDistributionConfigData,
    pub jito: JitoConfigData,
    pub unchecked_capacity: usize,
    pub checked_capacity: usize,
    pub bundle_capacity: usize,
    pub block_fill_cutoff: u8,
    pub max_check_batches: u8,
    pub bundle_expiry_ms: u64,
    pub progress_timeout_sec: u64,
    pub scoring: Option<AuctionBatchScoringConfig>,
}

/// Scoring of the auction batch scheduler.
#[derive(Clone, Copy, Debug)]
pub struct AuctionBatchScoringConfig {
    pub min_score: u64,
}

impl Default for AuctionBatchSchedulerConfigData {
    fn default() -> (r: Self)
        ensures
            r.keypair_path@ == Seq::<char>::empty(),
            r.tip.is_default(),
            r.jito.is_default(),
            r.unchecked_capacity == 65536,
            r.checked_capacity == 65536,
            r.bundle_capacity == 1024,
            r.block_fill_cutoff == 20,
            r.max_check_batches == 4,
            r.bundle_expiry_ms == 200,
            r.progress_timeout_sec == 5,
            r.scoring is None,
    {
        AuctionBatchSchedulerConfigData {
            keypair_path: String::new(),
            tip: TipDistributionConfigData::default(),
            jito: JitoConfigData::default(),
            unchecked_capacity: default_unchecked_capacity(),
            checked_capacity: default_checked_capacity(),
            bundle_capacity: default_bundle_capacity(),
            block_fill_cutoff: default_block_fill_cutoff(),
            max_check_batches: default_max_check_batches(),
            bundle_expiry_ms: default_bundle_expiry_ms(),
            progress_timeout_sec: default_progress_timeout_sec(),
            scoring: None,
        }
    }
}

/// Configuration of the batch scheduler.
#[derive(Clone, Debug)]
pub struct BatchSchedulerConfigData {
    pub keypair_path: String,
    pub tip: TipDistributionConfigData,
    pub jito: JitoConfigData,
    pub unchecked_capacity: usize,
    pub checked_capacity: usize,
    pub bundle_capacity: usize,
    pub block_fill_cutoff: u8,
    pub max_check_batches: u8,
    pub bundle_expiry_ms: u64,
    pub progress_timeout_sec: u64,
}

impl Default for BatchSchedulerConfigData {
    fn default() -> (r: Self)
        ensures
            r.keypair_path@ == Seq::<char>::empty(),
            r.tip.is_default(),
            r.jito.is_default(),
            r.unchecked_capacity == 65536,
            r.checked_capacity == 65536,
            r.bundle_capacity == 1024,
            r.block_fill_cutoff == 20,
            r.max_check_batches == 4,
            r.bundle_expiry_ms == 200,
            r.progress_timeout_sec == 5,
    {
        BatchSchedulerConfigData {
            keypair_path: String::new(),
            tip: TipDistributionConfigData::default(),
            jito: JitoConfigData::default(),
            unchecked_capacity: default_unchecked_capacity(),
            checked_capacity: default_checked_capacity(),
            bundle_capacity: default_bundle_capacity(),
            block_fill_cutoff: default_block_fill_cutoff(),
            max_check_batches: default_max_check_batches(),
            bundle_expiry_ms: default_bundle_expiry_ms(),
            progress_timeout_sec: default_progress_timeout_sec(),
        }
    }
}

/// How tips are distributed; addresses are in base 58.
#[derive(Clone, Debug)]
pub struct TipDistributionConfigData {
    pub vote_account: String,
    pub merkle_authority: String,
    pub commission_bps: u16,
}

impl TipDistributionConfigData {
    /// Nothing configured.
    pub open spec fn is_default(self) -> bool {
        &&& self.vote_account@ == Seq::<char>::empty()
        &&& self.merkle_authority@ == Seq::<char>::empty()
        &&& self.commission_bps == 0
    }
}

impl Default for TipDistributionConfigData {
    fn default() -> (r: Self)
        ensures
            r.is_default(),
    {
        TipDistributionConfigData {
            vote_account: String::new(),
            merkle_authority: String::new(),
            commission_bps: 0,
        }
    }
}

/// Where the block engine and the cluster are reached.
#[derive(Clone, Debug)]
pub struct JitoConfigData {
    pub http_rpc: String,
    pub ws_rpc: String,
    pub block_engine: String,
}

impl JitoConfigData {
    /// Nothing configured.
    pub open spec fn is_default(self) -> bool {
        &&& self.http_rpc@ == Seq::<char>::empty()
        &&& self.ws_rpc@ == Seq::<char>::empty()
        &&& self.block_engine@ == Seq::<char>::empty()
    }
}

impl Default for JitoConfigData {
    fn default() -> (r: Self)
        ensures
            r.is_default(),
    {
        JitoConfigData {
            http_rpc: String::new(),
            ws_rpc: String::new(),
            block_engine: String::new(),
        }
    }
}

/// Transactions that may wait to be checked.
pub fn default_unchecked_capacity() -> (r: usize)
    ensures
        r == 65536,
{
    64 * 1024
}

/// Transactions that may wait to be executed.
pub fn default_checked_capacity() -> (r: usize)
    ensures
        r == 65536,
{
    64 * 1024
}

/// Bundles that may wait to be executed.
pub fn default_bundle_capacity() -> (r: usize)
    ensures
        r == 1024,
{
    1024
}

/// How far ahead of the slot a block may be filled, in percent.
pub fn default_block_fill_cutoff() -> (r: u8)
    ensures
        r == 20,
{
    20
}

/// Messages that may wait at the check worker.
pub fn default_max_check_batches() -> (r: u8)
    ensures
        r == 4,
{
    4
}

/// How long a bundle is worth executing, in milliseconds.
pub fn default_bundle_expiry_ms() -> (r: u64)
    ensures
        r == 200,
{
    200
}

/// How long the validator may be silent, in seconds.
pub fn default_progress_timeout_sec() -> (r: u64)
    ensures
        r == 5,
{
    5
}

} // verus!
