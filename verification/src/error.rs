//! The errors of the engine.

use crate::text::{decimal, push_decimal};
use vstd::prelude::*;
use vstd::string::StringExecFns;

verus! {

/// A payload was too short or malformed for the layout it was read with.
///
/// It carries nothing else: past the point of failure the payload is opaque.
#[derive(Debug, Clone, Copy, PartialEq, Eq)]
pub struct DecodeError;

/// Why an operation of the engine failed.
#[derive(Debug, Clone, Copy, PartialEq, Eq)]
pub enum ExectError {
    /// The next opcode byte of the buffer has no registered descriptor.
    UnknownInstruction(u8),
    /// The payload of an instruction could not be decoded.
    DecodeError,
    /// A descriptor claimed an opcode that is already registered.
    DuplicateRegistration(u8),
    /// A jump asked for an offset past the end of the buffer.
    InvalidJumpTarget(usize),
    /// The program was still running when the step limit was reached.
    StepLimitExceeded,
}

/// The text of an error, for a person to read.
pub open spec fn message_text(error: ExectError) -> Seq<char> {
    match error {
        ExectError::UnknownInstruction(code) => "Cannot execute, unknown instruction: "@ + decimal(
            code as nat,
        ),
        ExectError::DecodeError => "Cannot execute, malformed instruction payload"@,
        ExectError::DuplicateRegistration(code) => "Cannot register, instruction code already taken: "@
            + decimal(code as nat),
        ExectError::InvalidJumpTarget(offset) => "Cannot execute, jump target past the end: "@
            + decimal(offset as nat),
        ExectError::StepLimitExceeded => "Cannot execute, step limit exceeded"@,
    }
}

impl ExectError {
    /// The text of this error, for a person to read.
    pub fn message(&self) -> (text: String)
        ensures
            text@ == message_text(*self),
    {
        match self {
            ExectError::UnknownInstruction(code) => {
                let mut text = String::from_str("Cannot execute, unknown instruction: ");
                push_decimal(&mut text, *code as u64);
                text
            },
            ExectError::DecodeError => String::from_str(
                "Cannot execute, malformed instruction payload",
            ),
            ExectError::DuplicateRegistration(code) => {
                let mut text = String::from_str("Cannot register, instruction code already taken: ");
                push_decimal(&mut text, *code as u64);
                text
            },
            ExectError::InvalidJumpTarget(offset) => {
                let mut text = String::from_str("Cannot execute, jump target past the end: ");
                push_decimal(&mut text, *offset as u64);
                text
            },
            ExectError::StepLimitExceeded => String::from_str("Cannot execute, step limit exceeded"),
        }
    }
}

} // verus!
