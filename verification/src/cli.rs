//! What the command line asks for.

use crate::scanner::{new_thread_activities, texts, ScanOptions};
use vstd::prelude::*;

verus! {

/// Workers where the command line names no number.
pub const DEFAULT_THREADS: usize = 128;

/// Results waiting for each worker where the command line names no number.
pub const DEFAULT_QUEUE_MULTIPLIER: usize = 32;

/// The command line.
#[derive(Debug)]
pub struct Cli {
    /// The directory to scan.
    pub path: String,
    /// Scan anew, and do not keep the result.
    pub no_cache: bool,
    /// The file to write the result to.
    pub export: Option<String>,
    /// Stay on the device where the scan starts.
    pub same_filesystem: bool,
    pub threads: Option<usize>,
    pub queue_multiplier: Option<usize>,
}

impl Cli {
    pub fn stat_threads(&self) -> (r: usize)
        ensures
            r == match self.threads {
                Some(n) => n,
                None => 128,
            },
    {
        match self.threads {
            Some(n) => n,
            None => DEFAULT_THREADS,
        }
    }

    /// The scan that is asked for.
    pub fn scan_options(&self) -> (r: ScanOptions)
        ensures
            r.path@ == self.path@,
            r.same_filesystem == self.same_filesystem,
            r.stat_threads == match self.threads {
                Some(n) => n,
                None => 128,
            },
            r.queue_multiplier == match self.queue_multiplier {
                Some(n) => n,
                None => 32,
            },
            texts(r.thread_activities@) == Seq::new(
                r.stat_threads as nat,
                |i: int| Seq::<char>::empty(),
            ),
    {
        let stat_threads = self.stat_threads();
        ScanOptions {
            path: self.path.clone(),
            same_filesystem: self.same_filesystem,
            stat_threads,
            queue_multiplier: match self.queue_multiplier {
                Some(n) => n,
                None => DEFAULT_QUEUE_MULTIPLIER,
            },
            thread_activities: new_thread_activities(stat_threads),
        }
    }
}

} // verus!
