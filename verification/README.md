# sched_archive

Transaction schedulers that run beside a validator: they take in transactions and
bundles, have them checked, and hand the most valuable ones to the validator's
workers while it leads.

The library in `src/` is verified with Verus. It never talks to the validator
itself: a `Bridge` mirrors what the scheduler knows of the connection and collects
the actions for the connection to carry out.

- `batch_scheduler` starts one transaction or one bundle per idle worker, best
  first.
- `auction_scheduler` lets transactions and bundles compete by scores that an
  auction gives them, and starts several transactions at once.
- `scheduler_core` holds the queues and steps that both share.
- `*_model` say what each step does, `*_laws` what follows from that: over whole
  rounds, no transaction is held twice and none is lost (`lifecycle_laws`), none
  that names a filtered account waits (`filter_laws`), and locks are held exactly by
  what executes (`lock_laws`, `auction_lock_laws`).
  `idle` says what a round leaves alone while the validator does not lead.
- `locks` and `auction_engine` decide which transactions may run together.
- `costs`, `tx_costs` and `tighter_batch` value transactions.
- `tip_program` builds the transactions that make the validator the receiver of
  tips.
- `jito` and `jito_session` are the conversation with the block engine.
- `config_store` and `setup` turn a configuration into a running scheduler.

`app/` is the daemon around it: shared memory, sockets, the configuration file, the
web server, and the floating-point prices of the auction. It runs the batch
scheduler's rounds whole, and the auction scheduler's step by step, since each score
depends on what the steps before it queued.
