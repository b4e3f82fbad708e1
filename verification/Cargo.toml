[package]
name = "sched_archive"
version = "0.1.0"
edition = "2021"
publish = false

[dependencies]
agave-feature-set = { version = "=4.2.2", features = ["agave-unstable-api"] }
agave-scheduler-bindings = { version = "=4.2.2", features = ["agave-unstable-api"] }
agave-scheduling-utils = { version = "=4.2.2", features = ["agave-unstable-api"] }
agave-transaction-view = { version = "=4.2.2", features = ["agave-unstable-api"] }
axum = { version = "0.8", default-features = false, features = ["http1", "json", "tokio"] }
bincode = "=1.3.3"
clap = { version = "4", default-features = false, features = ["derive", "help", "std", "usage"] }
crossbeam-channel = "0.5"
indexmap = "=2.14.2"
min-max-heap = "=1.3.0"
serde = { version = "1", features = ["derive"] }
serde_json = "1"
solana-compute-budget-instruction = { version = "=4.2.2", features = ["agave-unstable-api"] }
solana-cost-model = { version = "=4.2.2", features = ["agave-unstable-api"] }
solana-fee = { version = "=4.2.2", features = ["agave-unstable-api"] }
solana-hash = "4"
solana-keypair = "3"
solana-message = "4"
solana-pubkey = "4"
solana-runtime-transaction = { version = "=4.2.2", features = ["agave-unstable-api"] }
solana-transaction = { version = "4", features = ["serde", "wincode"] }
tokio = { version = "1", features = ["macros", "net", "rt-multi-thread", "signal", "sync", "time"] }
tokio-util = "0.7"
toml = "0.8"
tower-http = { version = "0.6", features = ["cors"] }
tracing = "0.1"

[dev-dependencies]
solana-compute-budget-interface = "3"
