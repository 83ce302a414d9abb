//! The execution stack of a Bitcoin Script interpreter.
//!
//! Operands live in one of two forms: a native signed integer, or a shared
//! byte buffer that several stack slots may alias. Every numeric read goes
//! through the canonical "scriptnum" codec — a little-endian, sign-magnitude,
//! variable-length byte encoding in which zero is the empty byte string —
//! guarded by a minimal-encoding rule and a 32-bit overflow window.

use vstd::prelude::*;

pub mod scriptnum;
pub mod stack;

pub use scriptnum::read_scriptint;
pub use stack::Stack;
pub use stack::StackEntry;

verus! {

/// Errors surfaced by stack operations and by the scriptnum codec.
#[derive(Clone, Copy, Debug, PartialEq, Eq, Structural)]
pub enum ExecError {
    /// A read, pop, or arity check reached beyond the current stack depth.
    InvalidStackOperation,
    /// A numeric read exceeded the 32-bit signed window, or a byte string
    /// handed to the codec was longer than the allowed size.
    ScriptIntNumericOverflow,
    /// A byte string was not the shortest encoding of its value while
    /// minimality was required.
    MinimalData,
}

} // verus!
