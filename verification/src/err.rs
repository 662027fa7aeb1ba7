//! The error kinds of the reconciler.
//!
//! Arena lookups fail soft (`Option`-based) and are tolerated by the
//! algorithms; evaluator and script failures fail hard and propagate to the
//! caller of `apply_props` / `event_entry`.

use vstd::prelude::*;

verus! {

/// An error surfaced by reconciliation or event dispatch.
#[derive(Debug, Clone, Copy, PartialEq, Eq, Structural)]
pub enum Error {
    /// A node or context that a caller explicitly required was missing.
    Other,
    /// A referenced node was not found where it had to exist.
    NotFound,
    /// The evaluator failed, or a template had a malformed shape.
    RuntimeError,
    /// A template's child-reconciliation discriminator was outside the
    /// supported set.
    UnsupportedMode,
}

} // verus!
