use std::sync::atomic::{AtomicU64, Ordering};
use std::sync::Arc;
use vstd::prelude::*;

verus! {

/// The producer side of a shared progress counter: workers may only add one
/// to it, any number of them at once.
#[derive(Clone)]
pub struct Updater {
    progress: Arc<AtomicU64>,
}

impl Updater {
    /// The counter that this updater adds to.
    pub closed spec fn counter(self) -> Arc<AtomicU64> {
        self.progress
    }

    /// Wraps a counter shared with an observer that polls it.
    pub fn new(progress: Arc<AtomicU64>) -> (r: Updater)
        ensures
            r.counter() == progress,
    {
        Updater { progress }
    }

    /// Records one more finished unit of work.
    pub fn inc(&self) {
        let _ = self.progress.fetch_add(1, Ordering::Relaxed);
    }
}

} // verus!
