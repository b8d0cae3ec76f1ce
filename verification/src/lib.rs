//! Conflict-free synchronisation of a directory of immutable files.
//!
//! A replica keeps a grow-only mapping from file names to file contents.
//! Replicas exchange snapshots of that mapping and fold them into their own
//! with a merge that only ever adds missing names, so that replicas converge
//! without coordination.
//!
//! - [`library`] holds the replicated state and its merge, [`crdt`] the
//!   interface that it implements, and [`laws`] what holds of merging.
//! - [`capture`] finds the files of the working directory that a replica has
//!   yet to record.
//! - [`sync`] is one synchronisation cycle as a machine: it decides what is
//!   to be done next, and a driver outside this library does it.
//! - [`world`] models the surroundings of a replica and proves what a whole
//!   cycle does to them, and [`recovery`] what a cycle leaves behind that
//!   was cut short.
//! - [`config`] holds the settings of a replica, and [`error`] the ways in
//!   which a cycle can fail.

pub mod capture;
pub mod config;
pub mod crdt;
pub mod equality;
pub mod error;
pub mod laws;
pub mod library;
pub mod recovery;
pub mod sync;
pub mod world;

pub use crate::config::EnvVars;
pub use crate::crdt::CrdtPack;
pub use crate::error::{Direction, Setting, SyncError};
pub use crate::library::Library;
