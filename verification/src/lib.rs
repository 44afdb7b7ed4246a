//! Snapshot ("golden output") test runner core.
//!
//! The library holds the verified logic of the runner: stream-mode
//! projections, the three-tier option override protocol, the snapshot
//! store with its dedup-by-append results lists and timing statistics,
//! the reconciler that folds run outcomes into the store, the progress
//! backoff policy, and the plain-text store codec with its round-trip
//! guarantee.  Process spawning, globbing, argument parsing and all
//! other I/O live outside the library and hand it plain values.

pub mod bytes;
pub mod codec;
pub mod codec_exec;
pub mod envvars;
pub mod laws;
pub mod modes;
pub mod outcome;
pub mod paths;
pub mod progress;
pub mod reconcile;
pub mod store;
