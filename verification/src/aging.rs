//! File-age classification.
//!
//! Files are sorted into recent, stale and old by the seconds since their
//! last modification, against two configurable thresholds.  Reading the
//! actual timestamps is the caller's business; the analyzer classifies
//! plain ages.

use vstd::prelude::*;

verus! {

/// Sorts files into recent, stale and old by age.
pub struct FileAgeAnalyzer {
    pub recent_files: Vec<Vec<u8>>,
    pub stale_files: Vec<Vec<u8>>,
    pub old_files: Vec<Vec<u8>>,
    /// Largest age, in seconds, still counted as recent.
    pub recent_threshold: u64,
    /// Largest age, in seconds, still counted as stale.
    pub stale_threshold: u64,
}

impl FileAgeAnalyzer {
    /// An analyzer with thresholds given in days.  The bounds are machine
    /// limits: a threshold must fit its counter in seconds.
    pub fn new(recent_days: u64, stale_days: u64) -> (r: Self)
        requires
            recent_days <= u64::MAX / 86400,
            stale_days <= u64::MAX / 86400,
        ensures
            r.recent_files@.len() == 0,
            r.stale_files@.len() == 0,
            r.old_files@.len() == 0,
            r.recent_threshold == recent_days * 86400,
            r.stale_threshold == stale_days * 86400,
    {
        FileAgeAnalyzer {
            recent_files: Vec::new(),
            stale_files: Vec::new(),
            old_files: Vec::new(),
            recent_threshold: recent_days * 86400,
            stale_threshold: stale_days * 86400,
        }
    }

    /// Files `path` by its age in seconds: recent up to the first
    /// threshold, stale up to the second, old beyond it.
    pub fn categorize_file_age(&mut self, path: Vec<u8>, age_secs: u64)
        ensures
            age_secs <= old(self).recent_threshold ==> (final(self).recent_files@ == old(
                self,
            ).recent_files@.push(path) && final(self).stale_files@ == old(self).stale_files@
                && final(self).old_files@ == old(self).old_files@),
            (age_secs > old(self).recent_threshold && age_secs <= old(self).stale_threshold)
                ==> (final(self).stale_files@ == old(self).stale_files@.push(path)
                && final(self).recent_files@ == old(self).recent_files@
                && final(self).old_files@ == old(self).old_files@),
            (age_secs > old(self).recent_threshold && age_secs > old(self).stale_threshold)
                ==> (final(self).old_files@ == old(
                self,
            ).old_files@.push(path) && final(self).recent_files@ == old(self).recent_files@
                && final(self).stale_files@ == old(self).stale_files@),
            final(self).recent_threshold == old(self).recent_threshold,
            final(self).stale_threshold == old(self).stale_threshold,
    {
        if age_secs <= self.recent_threshold {
            self.recent_files.push(path);
        } else if age_secs <= self.stale_threshold {
            self.stale_files.push(path);
        } else {
            self.old_files.push(path);
        }
    }

    /// How many files landed in each class: recent, stale, old.
    pub fn summary(&self) -> (r: (usize, usize, usize))
        ensures
            r.0 == self.recent_files@.len(),
            r.1 == self.stale_files@.len(),
            r.2 == self.old_files@.len(),
    {
        (self.recent_files.len(), self.stale_files.len(), self.old_files.len())
    }
}

} // verus!
