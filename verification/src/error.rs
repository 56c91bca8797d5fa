//! The ways in which an operation of the engine can be refused.

use vstd::prelude::*;

verus! {

/// Why an operation was refused.
#[derive(Clone, Copy, Debug, PartialEq, Eq)]
pub enum EngineError {
    /// A byte offset fell inside a character.
    InvalidOffset,
    /// A run addressed bytes outside its buffer, or cut a character in two.
    CorruptRun,
    /// The operation is named by the interface but has no defined behaviour.
    Unsupported,
    /// A coordinate or a height left the range of the integers that hold it.
    Overflow,
}

} // verus!
