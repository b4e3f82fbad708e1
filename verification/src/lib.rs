//! Verified transaction schedulers for an external block-packing process.

pub mod accounts;
pub mod answer_laws;
pub mod arrival_laws;
pub mod auction_engine;
pub mod auction_frames;
pub mod auction_laws;
pub mod auction_lock_laws;
pub mod auction_model;
pub mod auction_scheduler;
pub mod batch_laws;
pub mod batch_model;
pub mod batch_scheduler;
pub mod bridge;
pub mod check_laws;
pub mod choice_laws;
pub mod config_store;
pub mod containers;
pub mod costs;
pub mod engine_laws;
pub mod events;
pub mod execution_laws;
pub mod filter_laws;
pub mod frames;
pub mod idle;
pub mod jito;
pub mod jito_session;
pub mod le;
pub mod lifecycle;
pub mod lifecycle_laws;
pub mod lock_laws;
pub mod locks;
pub mod ordered;
pub mod pubkey;
pub mod queues;
pub mod report_laws;
pub mod round_laws;
pub mod scheduler_core;
pub mod scheduler_laws;
pub mod scheduler_model;
pub mod session_laws;
pub mod setup;
pub mod shared;
pub mod still;
pub mod tighter_batch;
pub mod tip_laws;
pub mod tip_program;
pub mod transaction;
pub mod transaction_laws;
pub mod tx_costs;
pub mod value_laws;
pub mod worker;
