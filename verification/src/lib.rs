//! A small bytecode container format and the interpreter that runs it.
//!
//! A program is a flat byte buffer of instructions laid out back to back, each
//! one an opcode byte followed by a self-delimiting payload. A [`registry::Registry`]
//! maps opcodes to instruction descriptors, a [`builder::BinaryBuilder`] assembles
//! programs and a [`executor::BinaryExecutor`] runs them. The [`codec`] turns
//! the fields of an instruction into a payload and back, and the [`manifest`]
//! reports what a registry holds.

pub mod builder;
pub mod codec;
pub mod error;
pub mod executor;
pub mod instruction;
pub mod manifest;
pub mod naming;
pub mod registry;
pub mod signal;
pub mod text;
pub mod varint;

pub use builder::BinaryBuilder;
pub use codec::{decode, encode, Field, FieldKind};
pub use error::{DecodeError, ExectError};
pub use executor::{BinaryExecutor, Next};
pub use instruction::{Instruction, InstructionFactory, InstructionInfo};
pub use naming::{to_lower_camel_case, to_upper_camel_case};
pub use manifest::{generate_manifest, ManifestFunctionNameFormat, ManifestOrdering};
pub use registry::{get_instruction, Registry};
pub use signal::ExecutorSignal;
