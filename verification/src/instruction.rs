//! Instructions and the descriptors that bind an opcode to them.
//!
//! What an instruction is and does is for its author to decide, so the
//! traits here promise nothing by themselves. Each method has a relation
//! beside it that says which results it can give. An implementation that
//! states nothing leaves the relation as it is, always true; a verified one
//! may narrow it, and the contracts of the builder and of the executor then
//! say what its programs do.

use crate::error::DecodeError;
use crate::signal::ExecutorSignal;
use vstd::prelude::*;

verus! {

/// One instruction: a value that knows its opcode, its payload bytes and its
/// effect.
pub trait Instruction {
    /// Whether `code` can be the opcode that this instruction reports.
    open spec fn reports(&self, code: u8) -> bool {
        true
    }

    /// Whether `bytes` can be the payload that this instruction encodes to.
    open spec fn encodes_to(&self, bytes: Seq<u8>) -> bool {
        true
    }

    /// Whether running this instruction can emit `signal`.
    open spec fn emits(&self, signal: Option<ExecutorSignal>) -> bool {
        true
    }

    /// The opcode byte that identifies this kind of instruction.
    fn get_code(&self) -> (code: u8)
        ensures
            self.reports(code),
    ;

    /// The payload of this instruction, without the opcode byte.
    fn to_bytes(self) -> (bytes: Vec<u8>)
        ensures
            self.encodes_to(bytes@),
    ;

    /// Runs the instruction and returns the signal it emits, if any.
    fn execute(self: Box<Self>) -> (signal: Option<ExecutorSignal>)
        ensures
            self.emits(signal),
    ;
}

/// Decodes the payload of one kind of instruction.
pub trait InstructionFactory {
    /// The instruction that a successful decode yields.
    type Output: Instruction;

    /// Whether decoding `buffer` can give `decoded`: an instruction and the
    /// bytes it left unconsumed, or nothing where decoding fails.
    open spec fn decodes(&self, buffer: Seq<u8>, decoded: Option<(Self::Output, Seq<u8>)>) -> bool {
        true
    }

    /// Reads one instruction from the front of `buffer`, which starts right
    /// after the opcode byte, and returns it with the bytes it did not
    /// consume.
    fn decode<'a>(&self, buffer: &'a [u8]) -> (decoded: Result<
        (Box<Self::Output>, &'a [u8]),
        DecodeError,
    >)
        ensures
            self.decodes(
                buffer@,
                match decoded {
                    Ok((instruction, rest)) => Some((*instruction, rest@)),
                    Err(_) => None,
                },
            ),
    ;
}

/// The descriptor of one kind of instruction.
#[derive(Debug)]
pub struct InstructionInfo<F> {
    /// The opcode byte.
    pub code: u8,
    /// The display name.
    pub name: &'static str,
    /// Builds an instruction of this kind from its payload.
    pub instruction_factory: F,
}

} // verus!
