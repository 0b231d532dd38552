//! Verified core of a benchmark-history database.
//!
//! The library tracks benchmark results of a repository across its
//! commit history: a filesystem-backed store keyed by commit hash and
//! machine name, a per-run manifest, a global index file, and the
//! decisions that drive runs and backfills.  Everything that decides
//! what ends up on disk is verified here; the surrounding binary does
//! the process and filesystem work and hands results in as plain
//! values.
//!
//! - [`events`]: the subprocess's line protocol and its lenient decoder
//! - [`store`]: where each record lands inside one run directory
//! - [`bench`]: staging a run, committing it whole or not at all
//! - [`common`]: the manifest and index records and their file texts
//! - [`sync`]: rebuilding manifests from what is actually on disk
//! - [`bench_missing`]: which commits still need runs, and in what order
//! - [`vcs`]: predicates over what the version-control tool reports
//! - [`json`] and [`emit`]: the grammar those file texts share
//! - [`text`]: characters, ordering, and sorting

pub mod bench;
pub mod bench_missing;
pub mod common;
pub mod emit;
pub mod events;
pub mod json;
pub mod store;
pub mod sync;
pub mod text;
pub mod vcs;
