//! A cooperative task-scheduling core: the task control blocks, their atomic
//! two-bit state machine, the ready queue, the coalesced timer queue, the
//! waker reference-counting discipline, and the three task-storage strategies
//! (singleton, pool, allocated), modelled over an index-based arena.

pub mod executor;
pub mod instant;
pub mod state;

pub use executor::{Executor, NextReady, SpawnError, SpawnToken, StorageKind};
