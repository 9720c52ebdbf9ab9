//! Staged, recoverable archival of files and directories.
//!
//! Instead of destroying data, removal and backup requests are turned into
//! timestamped batches under a destination root.  Each batch carries enough
//! metadata to restore every member to its original location.  This crate
//! holds the archival lifecycle logic itself — categorizing targets,
//! deciding when elevated privileges are needed, building the archive
//! commands, recording and reading back batch metadata, sweeping expired
//! batches, and planning recovery — all verified.  Reading the filesystem,
//! spawning the external utilities and the interactive presentation are left
//! to the surrounding binary.

pub mod paths;
pub mod errors;
pub mod categorize;
pub mod policy;
pub mod command;
pub mod metadata;
pub mod plan;
pub mod sweep;
pub mod recover;
pub mod search;
pub mod config;
pub mod cli;
