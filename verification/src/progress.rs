//! Progress and cancellation plumbing: long-running operations report [`Event`]s to a
//! [`ProgressSink`] and check a shared [`CancelToken`] at chunk boundaries.

use vstd::prelude::*;

use std::sync::Arc;
use std::sync::atomic::AtomicBool;

use crate::contract::Event;

verus! {

/// Receiver of progress events: the command line feeds NDJSON or a progress bar, a GUI its own
/// event loop.
pub trait ProgressSink {
    fn event(&self, ev: &Event);
}

/// A sink that does nothing.
#[derive(Debug, Clone, Copy)]
pub struct NullSink;

impl ProgressSink for NullSink {
    fn event(&self, _ev: &Event) {
    }
}

/// Cooperative cancellation, shared by its clones.
#[derive(Debug, Clone)]
pub struct CancelToken(Arc<AtomicBool>);

impl CancelToken {
    /// A token that is not cancelled.
    pub fn new() -> Self {
        CancelToken(Arc::new(AtomicBool::new(false)))
    }

    /// Request cancellation; every clone of this token sees it.
    pub fn cancel(&self) {
        self.0.store(true, std::sync::atomic::Ordering::Relaxed)
    }

    /// Whether cancellation was requested on this token or a clone of it.
    pub fn is_cancelled(&self) -> bool {
        self.0.load(std::sync::atomic::Ordering::Relaxed)
    }
}

impl Default for CancelToken {
    fn default() -> Self {
        CancelToken::new()
    }
}

} // verus!
