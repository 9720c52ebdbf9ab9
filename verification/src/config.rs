//! Runtime configuration.
//!
//! Destination roots, the retention threshold and the elevation policy are
//! explicit values passed into every component call, never process-wide
//! state.  The configuration file on disk may supply any subset of the
//! fields; the rest fall back to defaults here.  Locating and reading the
//! file, and the environment-dependent default archive location, are the
//! caller's business.

use vstd::prelude::*;

verus! {

/// The runtime configuration: how many days batches are retained, whether
/// expired batches are swept automatically, and where archives live.
pub struct Config {
    pub cleanup_days: usize,
    pub auto_cleanup: bool,
    pub archive_location: Vec<u8>,
}

/// The retention threshold used when the configuration file names none.
pub fn default_cleanup_days() -> (r: usize)
    ensures
        r == 30,
{
    30
}

impl Config {
    /// A configuration assembled from whatever fields the on-disk file
    /// supplied; missing fields fall back to their defaults.  The default
    /// archive location depends on the environment, so the caller hands it
    /// in.
    pub fn assemble(days: Option<usize>, auto: Option<bool>, location: Option<Vec<u8>>,
        fallback_location: Vec<u8>) -> (r: Config)
        ensures
            r.cleanup_days == (match days {
                Some(d) => d,
                None => 30usize,
            }),
            r.auto_cleanup == (match auto {
                Some(b) => b,
                None => false,
            }),
            r.archive_location@ == (match location {
                Some(l) => l@,
                None => fallback_location@,
            }),
    {
        let cleanup_days = match days {
            Some(d) => d,
            None => default_cleanup_days(),
        };
        let auto_cleanup = match auto {
            Some(b) => b,
            None => false,
        };
        let archive_location = match location {
            Some(l) => l,
            None => fallback_location,
        };
        Config { cleanup_days, auto_cleanup, archive_location }
    }
}

} // verus!
