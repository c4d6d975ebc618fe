//! A fixed-size worker-pool engine: a bounded set of long-lived workers pull
//! units of work from a shared first-in-first-out queue and run them to
//! completion, with deterministic shutdown. This crate verifies the pool's
//! coordination logic — the message protocol, the queue discipline, the
//! shutdown protocol and the worker lifecycle — together with the parser of
//! the physical-core probe that picks a pool size.

pub mod num_cpus;
pub mod pool;
pub mod queue;

pub use num_cpus::count_physical_cores;
pub use pool::{Message, PoolError, ThreadPool, Worker, WorkerAction, WorkerState};
