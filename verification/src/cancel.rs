//! Cooperative cancellation, set from the user interface and checked
//! between projects, between sample records and between copies.
//!
//! The flag is shared between threads, so no contract here speaks of the
//! value a check reads: another thread may set or clear it at any time.

use vstd::prelude::*;
use std::sync::atomic::{AtomicBool, Ordering};

verus! {

/// A flag that asks a running scan to stop.
#[derive(Debug)]
pub struct CancellationToken {
    flag: AtomicBool,
}

impl CancellationToken {
    /// A token that is not cancelled. No clause states the starting value:
    /// it is seen only through a later load of the shared flag.
    pub fn new() -> Self {
        CancellationToken { flag: AtomicBool::new(false) }
    }

    /// Marks the run as cancelled. Idempotent.
    pub fn cancel(&self) {
        self.flag.store(true, Ordering::SeqCst);
    }

    /// Clears the flag before a new scan starts.
    pub fn reset(&self) {
        self.flag.store(false, Ordering::SeqCst);
    }

    /// Whether a cancellation has been asked for. No clause states the
    /// value read: any thread holding the token may set or clear it.
    pub fn is_cancelled(&self) -> bool {
        self.flag.load(Ordering::Relaxed)
    }
}

} // verus!
