//! The discovery gate: the one flag that every collector worker reads before
//! it discovers a reference, and that is cleared for as long as the
//! discovered lists are being processed.

use vstd::prelude::*;
use std::sync::atomic::AtomicBool;
use atomic::Ordering;

verus! {

/// A process-wide flag, read and written with sequentially consistent
/// atomic operations. Any worker may flip it at any time, so what a load
/// returns is known only once it has returned.
pub struct DiscoveryGate {
    allow_discover: AtomicBool,
}

impl DiscoveryGate {
    /// A gate that stands open.
    pub fn new() -> (gate: Self) {
        Self { allow_discover: AtomicBool::new(true) }
    }

    /// Opens the discovery gate.
    pub fn open(&self) {
        self.allow_discover.store(true, Ordering::SeqCst)
    }

    /// Closes the discovery gate.
    pub fn close(&self) {
        self.allow_discover.store(false, Ordering::SeqCst)
    }

    /// Whether the discovery gate stands open at this moment.
    pub fn is_open(&self) -> (open: bool) {
        self.allow_discover.load(Ordering::SeqCst)
    }
}

} // verus!
