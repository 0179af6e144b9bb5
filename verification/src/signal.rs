//! Control signals that an instruction hands back to the executor.

use vstd::prelude::*;

verus! {

/// What an instruction asks of the executor once it has run.
///
/// An instruction that returns no signal falls through to the instruction
/// that follows it in the buffer.
#[derive(Debug, Clone, Copy, PartialEq, Eq)]
pub enum ExecutorSignal {
    /// Resume at this absolute offset of the program buffer.
    JumpTo(usize),
    /// Stop the program. This is a normal end, not an error.
    Abort,
}

} // verus!
