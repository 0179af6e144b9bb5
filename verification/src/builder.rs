//! Assembling a program buffer.

use crate::instruction::Instruction;
use vstd::prelude::*;

verus! {

/// One instruction as it lies in a program: its opcode and its payload.
pub ghost struct Encoded {
    /// The opcode byte.
    pub opcode: u8,
    /// The payload that follows it.
    pub payload: Seq<u8>,
}

/// The program made of these instructions: for each, in order, its opcode
/// byte and then its payload, with nothing between them.
pub open spec fn program(instructions: Seq<Encoded>) -> Seq<u8>
    decreases instructions.len(),
{
    if instructions.len() == 0 {
        Seq::empty()
    } else {
        program(instructions.drop_last()).push(instructions.last().opcode)
            + instructions.last().payload
    }
}

/// The offset at which instruction `k` of a program starts, which is the
/// length of the program for `k` the number of instructions.
pub open spec fn start_of(instructions: Seq<Encoded>, k: int) -> int {
    program(instructions.take(k)).len() as int
}

/// Builds a program by appending encoded instructions in order.
pub struct BinaryBuilder {
    /// The bytes appended so far.
    pub buffer: Vec<u8>,
}

impl BinaryBuilder {
    /// A builder with an empty buffer.
    pub fn new() -> (builder: Self)
        ensures
            builder.buffer@ == Seq::<u8>::empty(),
    {
        Self { buffer: Vec::new() }
    }

    /// Appends `opcode` and then `payload`.
    ///
    /// The pair is not checked against any registry: a program may be built
    /// before its descriptors are registered, or for another process.
    pub fn add_encoded(self, opcode: u8, payload: &[u8]) -> (builder: Self)
        ensures
            builder.buffer@ == self.buffer@.push(opcode) + payload@,
    {
        let mut buffer = self.buffer;
        buffer.push(opcode);
        buffer.extend_from_slice(payload);
        Self { buffer }
    }

    /// Appends the opcode that `instruction` reports and then the payload
    /// that it encodes to.
    pub fn add<I: Instruction>(self, instruction: I) -> (builder: Self)
        ensures
            exists|opcode: u8, payload: Seq<u8>|
                instruction.reports(opcode) && instruction.encodes_to(payload) && builder.buffer@
                    == self.buffer@.push(opcode) + payload,
    {
        let code = instruction.get_code();
        let bytes = instruction.to_bytes();
        let builder = self.add_encoded(code, bytes.as_slice());
        assert(instruction.reports(code) && instruction.encodes_to(bytes@) && builder.buffer@
            == self.buffer@.push(code) + bytes@);
        builder
    }

    /// The offset at which the next instruction will start: the length of
    /// the buffer so far.
    pub fn get_address_for_next_instruction(&self) -> (offset: usize)
        ensures
            offset == self.buffer@.len(),
    {
        self.buffer.len()
    }

    /// Hands the finished buffer over.
    pub fn build(self) -> (buffer: Vec<u8>)
        ensures
            buffer@ == self.buffer@,
    {
        self.buffer
    }
}

/// Appending an instruction to a program gives the program of one more
/// instruction.
pub proof fn lemma_program_grows(instructions: Seq<Encoded>, opcode: u8, payload: Seq<u8>)
    ensures
        program(instructions.push(Encoded { opcode, payload })) == program(instructions).push(opcode)
            + payload,
{
    assert(instructions.push(Encoded { opcode, payload }).drop_last() =~= instructions);
}

/// The starts of the instructions of a program lie in order, the first at
/// offset 0 and each behind the payload of the one before; at each stands
/// the opcode of its instruction, followed by its payload.
pub proof fn lemma_program_layout(instructions: Seq<Encoded>, k: int)
    requires
        0 <= k < instructions.len(),
    ensures
        start_of(instructions, 0) == 0,
        start_of(instructions, instructions.len() as int) == program(instructions).len(),
        start_of(instructions, k + 1) == start_of(instructions, k) + 1 + instructions[k].payload.len(),
        start_of(instructions, k + 1) <= program(instructions).len(),
        program(instructions)[start_of(instructions, k)] == instructions[k].opcode,
        program(instructions).subrange(
            start_of(instructions, k) + 1,
            start_of(instructions, k + 1),
        ) == instructions[k].payload,
    decreases instructions.len(),
{
    let n = instructions.len() as int;
    let whole = program(instructions);
    let front = instructions.drop_last();
    assert(instructions.take(n) =~= instructions);
    assert(instructions.take(0) =~= Seq::<Encoded>::empty());
    assert(instructions.take(n - 1) =~= front);
    if k == n - 1 {
        assert(instructions.take(k + 1) =~= instructions);
        assert(whole.subrange(start_of(instructions, k) + 1, start_of(instructions, k + 1))
            =~= instructions[k].payload);
    } else {
        lemma_program_layout(front, k);
        assert(front.take(k) =~= instructions.take(k));
        assert(front.take(k + 1) =~= instructions.take(k + 1));
        assert(front.take(n - 1) =~= front);
        assert(program(front).subrange(start_of(front, k) + 1, start_of(front, k + 1))
            =~= whole.subrange(start_of(instructions, k) + 1, start_of(instructions, k + 1)));
    }
}

} // verus!
