//! Heterogeneous compositional Stack architecture on a hyperdimensional
//! computing (HDC) substrate, with its contracts proved by Verus.
//!
//! - [`hdc`]: bipolar hypervectors and their algebra (bind, bundle,
//!   permute, similarity probes).
//! - [`hdc_laws`]: the algebraic laws of that algebra.
//! - [`op`]: the operation modes a Stack composes.
//! - [`stack`]: a Stack, which applies its operations to one input and
//!   bundles their outputs.
//! - [`sos`]: Stack-of-Stacks, which composes Stacks on a shared
//!   blackboard hypervector.
//! - [`gated`]: a Stack whose operations are weighted by soft gates.
//! - [`stack_laws`]: laws of operations, Stacks and Stacks-of-Stacks.
//! - [`meta`]: the meta-controller's errors.
pub mod hdc;
pub mod hdc_laws;
pub mod op;
pub mod stack;
pub mod sos;
pub mod gated;
pub mod stack_laws;
pub mod meta;

pub use hdc::{bind, bundle, cos_sim, hamming, permute, unbind, HdcError, Hypervector, Ratio, DEFAULT_DIM};
pub use op::{Operation, OperationError};
pub use stack::{Stack, StackError};
pub use sos::{SosError, StackOfStacks, Substructure};
pub use gated::{GatedError, GatedStack};
pub use meta::MetaError;

use vstd::prelude::*;

verus! {

/// Returns a banner describing the crate state.
pub fn banner() -> (s: &'static str)
    ensures
        s@ == "plausiden-stack v0.1.0 (Phase 1 — Stack + Operation enum; Phase 2+ adds gating + recursion)"@,
{
    "plausiden-stack v0.1.0 (Phase 1 — Stack + Operation enum; Phase 2+ adds gating + recursion)"
}

} // verus!
