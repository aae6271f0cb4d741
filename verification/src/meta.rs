//! Errors of the self-modification meta-controller, which tracks
//! per-operation rewards and suggests which operations to reweight, remove
//! or add.
use vstd::prelude::*;

verus! {

/// Errors raised by the meta-controller.
#[derive(Debug, PartialEq, Eq, Structural)]
pub enum MetaError {
    /// Observed operation index out of range.
    IndexOutOfRange {
        /// The bad index.
        index: usize,
        /// Stack length at observation time.
        len: usize,
    },
}

} // verus!
