//! Running a program buffer.
//!
//! The executor keeps one piece of state, a cursor into the buffer. At the
//! cursor it reads an opcode, looks its descriptor up, lets the descriptor
//! decode and run the instruction, and moves the cursor as the returned signal
//! says. What the instructions themselves do is theirs to decide, so the
//! contracts here are stated over the outcomes of those calls: whatever they
//! were, the executor followed the protocol on them, and made each call with
//! the bytes that the protocol says.

use crate::builder::{lemma_program_layout, program, start_of, Encoded};
use crate::codec::{
    all_encodable, decode_values, encode_values, kinds_of, lemma_decode_encode, FieldValue,
};
use crate::error::ExectError;
use crate::instruction::{Instruction, InstructionFactory, InstructionInfo};
use crate::registry::{has_code, Registry};
use crate::signal::ExecutorSignal;
use vstd::prelude::*;
use vstd::slice::slice_subrange;

verus! {

/// Where the executor goes once an instruction has run.
#[derive(Debug, Clone, Copy, PartialEq, Eq)]
pub enum Next {
    /// Go on at this offset of the buffer.
    At(usize),
    /// Stop, successfully.
    Stop,
}

/// What one call of a descriptor made of the payload handed to it.
pub ghost enum StepOutcome {
    /// The payload could not be decoded; no instruction ran.
    Malformed,
    /// An instruction was decoded and run.
    Executed {
        /// The signal that the instruction emitted.
        signal: Option<ExecutorSignal>,
        /// How many bytes of the payload slice the decoder left unconsumed.
        remaining: nat,
    },
}

/// The state of a run between two descriptor calls.
pub ghost enum RunState {
    /// The descriptor of the opcode at this offset is the next to be called.
    Ready(int),
    /// The run is over, with this result.
    Finished(Result<(), ExectError>),
    /// More outcomes were given than descriptors were called.
    Overrun,
}

/// The opcodes that `registry` has a descriptor for.
pub open spec fn known_codes<F>(registry: Registry<F>) -> Set<u8> {
    Set::new(|code: u8| has_code(registry@, code))
}

/// Where the cursor goes after the instruction at `cursor` ran in a buffer of
/// `len` bytes, emitted `signal` and left `remaining` bytes unconsumed.
///
/// A jump sets the cursor to the absolute offset, unchecked: the next fetch
/// decides whether it is in range. Without a signal the cursor moves to the
/// first unconsumed byte; a decoder that claims to have left more bytes than
/// it was given has misread the payload.
pub open spec fn next_after(
    len: int,
    cursor: int,
    signal: Option<ExecutorSignal>,
    remaining: int,
) -> Result<Next, ExectError> {
    match signal {
        Some(ExecutorSignal::Abort) => Ok(Next::Stop),
        Some(ExecutorSignal::JumpTo(offset)) => Ok(Next::At(offset)),
        None => if cursor < len && remaining <= len - cursor - 1 {
            Ok(Next::At((len - remaining) as usize))
        } else {
            Err(ExectError::DecodeError)
        },
    }
}

/// What the executor finds when the cursor arrives at `cursor`: the end of the
/// program, an offset past the end, an opcode without a descriptor, or an
/// instruction to run.
pub open spec fn arrive(buffer: Seq<u8>, known: Set<u8>, cursor: int) -> RunState {
    if cursor == buffer.len() {
        RunState::Finished(Ok(()))
    } else if cursor > buffer.len() {
        RunState::Finished(Err(ExectError::InvalidJumpTarget(cursor as usize)))
    } else if !known.contains(buffer[cursor]) {
        RunState::Finished(Err(ExectError::UnknownInstruction(buffer[cursor])))
    } else {
        RunState::Ready(cursor)
    }
}

/// The state that follows `state` once the descriptor called in it came back
/// with `outcome`.
pub open spec fn step(buffer: Seq<u8>, known: Set<u8>, state: RunState, outcome: StepOutcome) -> RunState {
    match state {
        RunState::Ready(cursor) => match outcome {
            StepOutcome::Malformed => RunState::Finished(Err(ExectError::DecodeError)),
            StepOutcome::Executed { signal, remaining } => match next_after(
                buffer.len() as int,
                cursor,
                signal,
                remaining as int,
            ) {
                Ok(Next::At(target)) => arrive(buffer, known, target as int),
                Ok(Next::Stop) => RunState::Finished(Ok(())),
                Err(e) => RunState::Finished(Err(e)),
            },
        },
        _ => RunState::Overrun,
    }
}

/// The state of a run that starts at offset 0 of `buffer`, after the
/// descriptor calls came back with `outcomes`, in this order.
pub open spec fn state_after(buffer: Seq<u8>, known: Set<u8>, outcomes: Seq<StepOutcome>) -> RunState
    decreases outcomes.len(),
{
    if outcomes.len() == 0 {
        arrive(buffer, known, 0)
    } else {
        step(buffer, known, state_after(buffer, known, outcomes.drop_last()), outcomes.last())
    }
}

/// `result` is what a run of `buffer` returns in which the descriptor calls
/// came back with `outcomes`, and no more than `limit` calls are allowed.
pub open spec fn is_run(
    buffer: Seq<u8>,
    known: Set<u8>,
    limit: nat,
    outcomes: Seq<StepOutcome>,
    result: Result<(), ExectError>,
) -> bool {
    outcomes.len() <= limit && match state_after(buffer, known, outcomes) {
        RunState::Finished(r) => result == r,
        RunState::Ready(_) => outcomes.len() == limit && result == Err::<(), ExectError>(
            ExectError::StepLimitExceeded,
        ),
        RunState::Overrun => false,
    }
}

/// `outcome` is what the descriptor `info` can make of `payload`: its
/// factory can fail on it, or can decode an instruction from it that can
/// emit the signal and leaves that many bytes.
pub open spec fn explains<F: InstructionFactory>(
    info: InstructionInfo<F>,
    payload: Seq<u8>,
    outcome: StepOutcome,
) -> bool {
    match outcome {
        StepOutcome::Malformed => info.instruction_factory.decodes(payload, None),
        StepOutcome::Executed { signal, remaining } => exists|
            instruction: F::Output,
            rest: Seq<u8>,
        |
            #![trigger info.instruction_factory.decodes(payload, Some((instruction, rest)))]
            info.instruction_factory.decodes(payload, Some((instruction, rest)))
                && instruction.emits(signal) && rest.len() == remaining,
    }
}

/// `outcome` came from the right call: after `before` the run was ready at
/// some cursor, and the descriptor registered for the opcode there was
/// handed the bytes that follow the opcode, up to the end of the buffer.
pub open spec fn called_rightly<F: InstructionFactory>(
    buffer: Seq<u8>,
    registry: Registry<F>,
    before: Seq<StepOutcome>,
    outcome: StepOutcome,
) -> bool {
    match state_after(buffer, known_codes(registry), before) {
        RunState::Ready(cursor) => exists|i: int|
            0 <= i < registry@.len() && (#[trigger] registry@[i]).code == buffer[cursor]
                && explains(registry@[i], buffer.skip(cursor + 1), outcome),
        _ => false,
    }
}

/// Every outcome of `outcomes` came from the right call, made after the
/// outcomes before it.
pub open spec fn justified<F: InstructionFactory>(
    buffer: Seq<u8>,
    registry: Registry<F>,
    outcomes: Seq<StepOutcome>,
) -> bool {
    forall|j: int|
        0 <= j < outcomes.len() ==> #[trigger] called_rightly(
            buffer,
            registry,
            outcomes.take(j),
            outcomes[j],
        )
}

/// A justified run stays justified by one more outcome that the descriptor
/// at the cursor explains.
pub proof fn lemma_justified_push<F: InstructionFactory>(
    buffer: Seq<u8>,
    registry: Registry<F>,
    outcomes: Seq<StepOutcome>,
    outcome: StepOutcome,
    cursor: int,
    i: int,
)
    requires
        justified(buffer, registry, outcomes),
        state_after(buffer, known_codes(registry), outcomes) == RunState::Ready(cursor),
        0 <= i < registry@.len(),
        registry@[i].code == buffer[cursor],
        explains(registry@[i], buffer.skip(cursor + 1), outcome),
    ensures
        justified(buffer, registry, outcomes.push(outcome)),
{
    let longer = outcomes.push(outcome);
    assert forall|j: int| 0 <= j < longer.len() implies #[trigger] called_rightly(
        buffer,
        registry,
        longer.take(j),
        longer[j],
    ) by {
        if j < outcomes.len() {
            assert(longer.take(j) =~= outcomes.take(j));
            assert(longer[j] == outcomes[j]);
            assert(called_rightly(buffer, registry, outcomes.take(j), outcomes[j]));
        } else {
            assert(longer.take(j) =~= outcomes);
            assert(registry@[i].code == buffer[cursor]);
        }
    }
}

/// Runs the program in `buffer`.
pub struct BinaryExecutor<'a> {
    /// The program. It is only read.
    pub buffer: &'a [u8],
}

impl<'a> BinaryExecutor<'a> {
    /// An executor for `buffer`.
    pub fn new(buffer: &'a [u8]) -> (executor: Self)
        ensures
            executor.buffer@ == buffer@,
    {
        Self { buffer }
    }

    /// Where the cursor goes after the instruction at `cursor` ran.
    pub fn next(len: usize, cursor: usize, signal: Option<ExecutorSignal>, remaining: usize) -> (next:
        Result<Next, ExectError>)
        ensures
            next == next_after(len as int, cursor as int, signal, remaining as int),
    {
        match signal {
            Some(ExecutorSignal::Abort) => Ok(Next::Stop),
            Some(ExecutorSignal::JumpTo(offset)) => Ok(Next::At(offset)),
            None => if cursor < len && remaining <= len - cursor - 1 {
                Ok(Next::At(len - remaining))
            } else {
                Err(ExectError::DecodeError)
            },
        }
    }

    /// Runs the program from offset 0 until it ends, fails, or has called
    /// `max_steps` descriptors and would call one more.
    ///
    /// The result is that of a run of the buffer, on the outcomes of the
    /// descriptor calls that were made, each of them made as the protocol
    /// says.
    pub fn execute_with_limit<F: InstructionFactory>(
        &self,
        registry: &Registry<F>,
        max_steps: u64,
    ) -> (result: Result<(), ExectError>)
        requires
            registry.wf(),
        ensures
            exists|outcomes: Seq<StepOutcome>|
                is_run(self.buffer@, known_codes(*registry), max_steps as nat, outcomes, result)
                    && justified(self.buffer@, *registry, outcomes),
    {
        let buffer = self.buffer;
        let len = buffer.len();
        let ghost known = known_codes(*registry);
        let ghost mut outcomes: Seq<StepOutcome> = Seq::empty();
        let mut cursor: usize = 0;
        let mut steps: u64 = 0;
        loop
            invariant
                registry.wf(),
                buffer@ == self.buffer@,
                len == buffer@.len(),
                known == known_codes(*registry),
                steps == outcomes.len(),
                steps <= max_steps,
                state_after(buffer@, known, outcomes) == arrive(buffer@, known, cursor as int),
                justified(buffer@, *registry, outcomes),
            decreases max_steps - steps,
        {
            if cursor == len {
                assert(is_run(buffer@, known, max_steps as nat, outcomes, Ok(())));
                return Ok(());
            }
            if cursor > len {
                let result = Err(ExectError::InvalidJumpTarget(cursor));
                assert(is_run(buffer@, known, max_steps as nat, outcomes, result));
                return result;
            }
            let code = buffer[cursor];
            let info = match registry.lookup(code) {
                Some(info) => info,
                None => {
                    let result = Err(ExectError::UnknownInstruction(code));
                    assert(is_run(buffer@, known, max_steps as nat, outcomes, result));
                    return result;
                },
            };
            assert(known.contains(code));
            if steps == max_steps {
                let result = Err(ExectError::StepLimitExceeded);
                assert(is_run(buffer@, known, max_steps as nat, outcomes, result));
                return result;
            }
            let payload = slice_subrange(buffer, cursor + 1, len);
            assert(payload@ == buffer@.skip(cursor + 1));
            let ghost before = outcomes;
            let ghost outcome;
            let next = match info.instruction_factory.decode(payload) {
                Ok((instruction, rest)) => {
                    let ghost decoded = *instruction;
                    let signal = instruction.execute();
                    let remaining = rest.len();
                    proof {
                        outcome = StepOutcome::Executed { signal, remaining: remaining as nat };
                        assert(info.instruction_factory.decodes(payload@, Some((decoded, rest@)))
                            && decoded.emits(signal));
                        assert(explains(*info, payload@, outcome));
                    }
                    Self::next(len, cursor, signal, remaining)
                },
                Err(_) => {
                    proof {
                        outcome = StepOutcome::Malformed;
                        assert(explains(*info, payload@, outcome));
                    }
                    Err(ExectError::DecodeError)
                },
            };
            proof {
                let i = choose|i: int|
                    0 <= i < registry@.len() && (#[trigger] registry@[i]).code == code && *info
                        == registry@[i];
                outcomes = before.push(outcome);
                assert(outcomes.drop_last() == before);
                lemma_justified_push(buffer@, *registry, before, outcome, cursor as int, i);
            }
            match next {
                Ok(Next::At(target)) => {
                    cursor = target;
                    steps = steps + 1;
                },
                Ok(Next::Stop) => {
                    assert(is_run(buffer@, known, max_steps as nat, outcomes, Ok(())));
                    return Ok(());
                },
                Err(e) => {
                    assert(is_run(buffer@, known, max_steps as nat, outcomes, Err(e)));
                    return Err(e);
                },
            }
        }
    }

    /// Runs the program from offset 0 until it ends or fails.
    ///
    /// A program that jumps in a circle never ends by itself; the executor
    /// gives it up after `u64::MAX` instructions.
    pub fn execute<F: InstructionFactory>(&self, registry: &Registry<F>) -> (result: Result<
        (),
        ExectError,
    >)
        requires
            registry.wf(),
        ensures
            exists|outcomes: Seq<StepOutcome>|
                is_run(self.buffer@, known_codes(*registry), u64::MAX as nat, outcomes, result)
                    && justified(self.buffer@, *registry, outcomes),
    {
        self.execute_with_limit(registry, u64::MAX)
    }

    /// Drops the first `offset` bytes of the program, so that offset 0 of the
    /// executor is what offset `offset` was.
    pub fn jump(&mut self, offset: usize)
        requires
            offset <= old(self).buffer@.len(),
        ensures
            final(self).buffer@ == old(self).buffer@.subrange(
                offset as int,
                old(self).buffer@.len() as int,
            ),
    {
        self.buffer = slice_subrange(self.buffer, offset, self.buffer.len());
    }
}

/// Once a run is over, no descriptor is called: outcomes given beyond the
/// end of a run make no run.
pub proof fn lemma_nothing_after_the_end(
    buffer: Seq<u8>,
    known: Set<u8>,
    outcomes: Seq<StepOutcome>,
    k: int,
)
    requires
        0 <= k < outcomes.len(),
        !(state_after(buffer, known, outcomes.take(k)) is Ready),
    ensures
        state_after(buffer, known, outcomes) == RunState::Overrun,
    decreases outcomes.len() - k,
{
    let front = outcomes.drop_last();
    if k == outcomes.len() - 1 {
        assert(outcomes.take(k) =~= front);
    } else {
        assert(front.take(k) =~= outcomes.take(k));
        lemma_nothing_after_the_end(buffer, known, front, k);
    }
}

/// The empty program ends at once, successfully, and calls no descriptor.
pub proof fn lemma_empty_program(
    buffer: Seq<u8>,
    known: Set<u8>,
    limit: nat,
    outcomes: Seq<StepOutcome>,
    result: Result<(), ExectError>,
)
    requires
        buffer.len() == 0,
        is_run(buffer, known, limit, outcomes, result),
    ensures
        outcomes.len() == 0,
        result == Ok::<(), ExectError>(()),
{
    if outcomes.len() > 0 {
        assert(outcomes.take(0) =~= Seq::<StepOutcome>::empty());
        lemma_nothing_after_the_end(buffer, known, outcomes, 0);
    }
}

/// A program whose first opcode has no descriptor fails with that opcode,
/// and calls no descriptor.
pub proof fn lemma_unknown_first_opcode(
    buffer: Seq<u8>,
    known: Set<u8>,
    limit: nat,
    outcomes: Seq<StepOutcome>,
    result: Result<(), ExectError>,
)
    requires
        buffer.len() > 0,
        !known.contains(buffer[0]),
        is_run(buffer, known, limit, outcomes, result),
    ensures
        outcomes.len() == 0,
        result == Err::<(), ExectError>(ExectError::UnknownInstruction(buffer[0])),
{
    if outcomes.len() > 0 {
        assert(outcomes.take(0) =~= Seq::<StepOutcome>::empty());
        lemma_nothing_after_the_end(buffer, known, outcomes, 0);
    }
}

/// An instruction that emits `Abort` ends the run successfully, and no
/// descriptor is called after it.
pub proof fn lemma_abort_ends_run(
    buffer: Seq<u8>,
    known: Set<u8>,
    outcomes: Seq<StepOutcome>,
    remaining: nat,
    more: Seq<StepOutcome>,
)
    requires
        state_after(buffer, known, outcomes) is Ready,
    ensures
        state_after(
            buffer,
            known,
            outcomes.push(
                StepOutcome::Executed { signal: Some(ExecutorSignal::Abort), remaining },
            ),
        ) == RunState::Finished(Ok(())),
        more.len() > 0 ==> state_after(
            buffer,
            known,
            outcomes.push(StepOutcome::Executed { signal: Some(ExecutorSignal::Abort), remaining })
                + more,
        ) == RunState::Overrun,
{
    let aborted = outcomes.push(
        StepOutcome::Executed { signal: Some(ExecutorSignal::Abort), remaining },
    );
    assert(aborted.drop_last() =~= outcomes);
    if more.len() > 0 {
        let all = aborted + more;
        assert(all.take(aborted.len() as int) =~= aborted);
        lemma_nothing_after_the_end(buffer, known, all, aborted.len() as int);
    }
}

/// An instruction that emits `JumpTo` sends the cursor to that offset of
/// the buffer, whatever lies between: what happens next is what the
/// executor finds there.
pub proof fn lemma_jump_moves_cursor(
    buffer: Seq<u8>,
    known: Set<u8>,
    outcomes: Seq<StepOutcome>,
    offset: usize,
    remaining: nat,
)
    requires
        state_after(buffer, known, outcomes) is Ready,
    ensures
        state_after(
            buffer,
            known,
            outcomes.push(
                StepOutcome::Executed { signal: Some(ExecutorSignal::JumpTo(offset)), remaining },
            ),
        ) == arrive(buffer, known, offset as int),
{
    let jumped = outcomes.push(
        StepOutcome::Executed { signal: Some(ExecutorSignal::JumpTo(offset)), remaining },
    );
    assert(jumped.drop_last() =~= outcomes);
}

/// The outcome of instruction `k` of a program where it was decoded from
/// exactly its own payload and emitted no signal.
pub open spec fn fall_through(instructions: Seq<Encoded>, k: int) -> StepOutcome {
    StepOutcome::Executed {
        signal: None,
        remaining: (program(instructions).len() - start_of(instructions, k + 1)) as nat,
    }
}

/// The outcomes of the first `k` instructions of a program where each fell
/// through.
pub open spec fn falling_through(instructions: Seq<Encoded>, k: int) -> Seq<StepOutcome> {
    Seq::new(k as nat, |j: int| fall_through(instructions, j))
}

/// A program of registered instructions that emit no signal runs them in
/// buffer order: after the first `k` the descriptor of instruction `k` is
/// called at that instruction's start, and after the last the run ends
/// successfully, exactly at the end of the buffer.
pub proof fn lemma_sequential_run(instructions: Seq<Encoded>, known: Set<u8>, k: int)
    requires
        0 <= k <= instructions.len(),
        program(instructions).len() <= usize::MAX,
        forall|j: int| 0 <= j < instructions.len() ==> known.contains((#[trigger] instructions[j]).opcode),
    ensures
        state_after(program(instructions), known, falling_through(instructions, k)) == if k
            < instructions.len() {
            RunState::Ready(start_of(instructions, k))
        } else {
            RunState::Finished(Ok(()))
        },
    decreases k,
{
    let buffer = program(instructions);
    let outcomes = falling_through(instructions, k);
    if k < instructions.len() {
        lemma_program_layout(instructions, k);
        assert(known.contains(instructions[k].opcode));
    }
    if k == 0 {
        if instructions.len() == 0 {
            assert(instructions.take(0) =~= instructions);
        } else {
            lemma_program_layout(instructions, 0);
        }
    } else {
        lemma_sequential_run(instructions, known, k - 1);
        lemma_program_layout(instructions, k - 1);
        assert(outcomes.drop_last() =~= falling_through(instructions, k - 1));
        assert(outcomes.last() == fall_through(instructions, k - 1));
        if k == instructions.len() {
            assert(instructions.take(k) =~= instructions);
        }
    }
}

/// A decoder that reads the layout of instruction `k` from the bytes behind
/// its opcode finds the values that were encoded there and stops exactly
/// where the next instruction starts: the program needs no table of lengths.
pub proof fn lemma_payload_delimits_itself(
    instructions: Seq<Encoded>,
    k: int,
    values: Seq<FieldValue>,
)
    requires
        0 <= k < instructions.len(),
        all_encodable(values),
        instructions[k].payload == encode_values(values),
    ensures
        decode_values(
            kinds_of(values),
            program(instructions).skip(start_of(instructions, k) + 1),
        ) == Some((values, instructions[k].payload.len())),
        start_of(instructions, k) + 1 + instructions[k].payload.len() == start_of(
            instructions,
            k + 1,
        ),
{
    let buffer = program(instructions);
    let payload = instructions[k].payload;
    let behind = buffer.skip(start_of(instructions, k + 1));
    lemma_program_layout(instructions, k);
    assert(buffer.skip(start_of(instructions, k) + 1) =~= payload + behind);
    lemma_decode_encode(values, behind);
}

} // verus!
