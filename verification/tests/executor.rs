use exect_core::executor::Next;
use exect_core::{
    BinaryBuilder, BinaryExecutor, DecodeError, ExectError, ExecutorSignal, Instruction,
    InstructionFactory, InstructionInfo, Registry,
};
use std::cell::RefCell;
use std::rc::Rc;

type Log = Rc<RefCell<Vec<String>>>;

const MARK_A: u8 = 0x01;
const MARK_B: u8 = 0x02;
const MARK_C: u8 = 0x03;
const JUMP: u8 = 0x10;
const STOP: u8 = 0x20;
const GREEDY: u8 = 0x30;

/// What a test instruction does when it runs.
#[derive(Clone)]
enum Behaviour {
    /// One payload byte; logs it.
    Mark,
    /// One payload byte, the offset to jump to; logs it.
    Jump,
    /// No payload; logs and aborts.
    Stop,
    /// Claims to have left more bytes than it was given.
    Greedy,
}

struct TestInstruction {
    code: u8,
    behaviour: Behaviour,
    value: u8,
    log: Log,
}

impl Instruction for TestInstruction {
    fn get_code(&self) -> u8 {
        self.code
    }

    fn to_bytes(self) -> Vec<u8> {
        match self.behaviour {
            Behaviour::Mark | Behaviour::Jump => vec![self.value],
            Behaviour::Stop | Behaviour::Greedy => Vec::new(),
        }
    }

    fn execute(self: Box<Self>) -> Option<ExecutorSignal> {
        self.log.borrow_mut().push(format!("{:#04x}:{}", self.code, self.value));
        match self.behaviour {
            Behaviour::Mark | Behaviour::Greedy => None,
            Behaviour::Jump => Some(ExecutorSignal::JumpTo(self.value as usize)),
            Behaviour::Stop => Some(ExecutorSignal::Abort),
        }
    }
}

struct TestFactory {
    code: u8,
    behaviour: Behaviour,
    log: Log,
}

impl InstructionFactory for TestFactory {
    type Output = TestInstruction;

    fn decode<'a>(
        &self,
        buffer: &'a [u8],
    ) -> Result<(Box<TestInstruction>, &'a [u8]), DecodeError> {
        let (value, rest): (u8, &'a [u8]) = match self.behaviour {
            Behaviour::Mark | Behaviour::Jump => match buffer.split_first() {
                Some((value, rest)) => (*value, rest),
                None => return Err(DecodeError),
            },
            Behaviour::Stop => (0, buffer),
            Behaviour::Greedy => {
                let spare: &'static [u8] = &[0; 64];
                (0, spare)
            }
        };
        let instruction = TestInstruction {
            code: self.code,
            behaviour: self.behaviour.clone(),
            value,
            log: self.log.clone(),
        };
        Ok((Box::new(instruction), rest))
    }
}

fn new_log() -> Log {
    Rc::new(RefCell::new(Vec::new()))
}

fn registry_with(log: &Log, kinds: &[(u8, Behaviour)]) -> Registry<TestFactory> {
    let mut registry = Registry::new();
    for (code, behaviour) in kinds {
        let info = InstructionInfo {
            code: *code,
            name: "test",
            instruction_factory: TestFactory {
                code: *code,
                behaviour: behaviour.clone(),
                log: log.clone(),
            },
        };
        assert_eq!(registry.register(info), Ok(()));
    }
    registry
}

fn full_registry(log: &Log) -> Registry<TestFactory> {
    registry_with(
        log,
        &[
            (MARK_A, Behaviour::Mark),
            (MARK_B, Behaviour::Mark),
            (MARK_C, Behaviour::Mark),
            (JUMP, Behaviour::Jump),
            (STOP, Behaviour::Stop),
            (GREEDY, Behaviour::Greedy),
        ],
    )
}

fn logged(log: &Log) -> Vec<String> {
    log.borrow().clone()
}

#[test]
fn sequential_programs_run_in_buffer_order() {
    let log = new_log();
    let registry = full_registry(&log);
    let program = BinaryBuilder::new()
        .add_encoded(MARK_A, &[10])
        .add_encoded(MARK_B, &[20])
        .add_encoded(MARK_C, &[30])
        .build();
    assert_eq!(program, vec![1, 10, 2, 20, 3, 30]);
    assert_eq!(BinaryExecutor::new(&program).execute(&registry), Ok(()));
    assert_eq!(logged(&log), vec!["0x01:10", "0x02:20", "0x03:30"]);
}

#[test]
fn jump_skips_what_lies_between() {
    let log = new_log();
    let registry = full_registry(&log);
    // [JUMP 4][MARK_B 20][MARK_C 30]: the third instruction starts at offset 4.
    let builder = BinaryBuilder::new().add_encoded(JUMP, &[4]).add_encoded(MARK_B, &[20]);
    assert_eq!(builder.get_address_for_next_instruction(), 4);
    let program = builder.add_encoded(MARK_C, &[30]).build();
    assert_eq!(BinaryExecutor::new(&program).execute(&registry), Ok(()));
    assert_eq!(logged(&log), vec!["0x10:4", "0x03:30"]);
}

#[test]
fn abort_stops_the_program_successfully() {
    let log = new_log();
    let registry = full_registry(&log);
    let program = BinaryBuilder::new().add_encoded(STOP, &[]).add_encoded(MARK_B, &[20]).build();
    assert_eq!(BinaryExecutor::new(&program).execute(&registry), Ok(()));
    assert_eq!(logged(&log), vec!["0x20:0"]);
}

#[test]
fn unknown_opcode_is_reported_without_side_effects() {
    let log = new_log();
    let registry = full_registry(&log);
    let program = vec![0xFFu8];
    assert_eq!(
        BinaryExecutor::new(&program).execute(&registry),
        Err(ExectError::UnknownInstruction(0xFF))
    );
    assert!(logged(&log).is_empty());
}

#[test]
fn unknown_opcode_after_a_known_one_keeps_earlier_effects() {
    let log = new_log();
    let registry = full_registry(&log);
    let program = vec![MARK_A, 10, 0x7E, 1];
    assert_eq!(
        BinaryExecutor::new(&program).execute(&registry),
        Err(ExectError::UnknownInstruction(0x7E))
    );
    assert_eq!(logged(&log), vec!["0x01:10"]);
}

#[test]
fn empty_program_succeeds() {
    let log = new_log();
    let registry = full_registry(&log);
    let program: Vec<u8> = Vec::new();
    assert_eq!(BinaryExecutor::new(&program).execute(&registry), Ok(()));
    assert!(logged(&log).is_empty());
}

#[test]
fn truncated_payload_is_a_decode_error() {
    let log = new_log();
    let registry = full_registry(&log);
    let program = vec![MARK_A, 10, MARK_B];
    assert_eq!(BinaryExecutor::new(&program).execute(&registry), Err(ExectError::DecodeError));
    assert_eq!(logged(&log), vec!["0x01:10"]);
}

#[test]
fn jump_to_the_end_of_the_buffer_ends_the_program() {
    let log = new_log();
    let registry = full_registry(&log);
    let program = vec![JUMP, 4, MARK_B, 20];
    assert_eq!(BinaryExecutor::new(&program).execute(&registry), Ok(()));
    assert_eq!(logged(&log), vec!["0x10:4"]);
}

#[test]
fn jump_past_the_end_is_an_invalid_target() {
    let log = new_log();
    let registry = full_registry(&log);
    let program = vec![JUMP, 5, MARK_B, 20];
    assert_eq!(
        BinaryExecutor::new(&program).execute(&registry),
        Err(ExectError::InvalidJumpTarget(5))
    );
    assert_eq!(logged(&log), vec!["0x10:5"]);
}

#[test]
fn jump_into_a_payload_reads_the_byte_there_as_an_opcode() {
    let log = new_log();
    let registry = full_registry(&log);
    // Offset 3 is the payload byte of MARK_B: 0x63 is no opcode.
    let program = vec![JUMP, 3, MARK_B, 0x63];
    assert_eq!(
        BinaryExecutor::new(&program).execute(&registry),
        Err(ExectError::UnknownInstruction(0x63))
    );
    // Offset 3 holds MARK_A here, whose payload is missing.
    let program = vec![JUMP, 3, MARK_B, MARK_A];
    assert_eq!(BinaryExecutor::new(&program).execute(&registry), Err(ExectError::DecodeError));
}

#[test]
fn backward_jump_runs_until_the_step_limit() {
    let log = new_log();
    let registry = full_registry(&log);
    let program = vec![MARK_A, 7, JUMP, 0];
    assert_eq!(
        BinaryExecutor::new(&program).execute_with_limit(&registry, 5),
        Err(ExectError::StepLimitExceeded)
    );
    assert_eq!(logged(&log), vec!["0x01:7", "0x10:0", "0x01:7", "0x10:0", "0x01:7"]);
}

#[test]
fn step_limit_does_not_cut_a_program_that_fits() {
    let log = new_log();
    let registry = full_registry(&log);
    let program = vec![MARK_A, 1, MARK_B, 2];
    assert_eq!(BinaryExecutor::new(&program).execute_with_limit(&registry, 2), Ok(()));
    assert_eq!(
        BinaryExecutor::new(&program).execute_with_limit(&registry, 1),
        Err(ExectError::StepLimitExceeded)
    );
    assert_eq!(BinaryExecutor::new(&[]).execute_with_limit(&registry, 0), Ok(()));
}

#[test]
fn decoder_that_leaves_more_than_it_got_is_a_decode_error() {
    let log = new_log();
    let registry = full_registry(&log);
    let program = vec![GREEDY, 1, 2];
    assert_eq!(BinaryExecutor::new(&program).execute(&registry), Err(ExectError::DecodeError));
}

#[test]
fn next_follows_the_signal() {
    assert_eq!(BinaryExecutor::next(10, 2, Some(ExecutorSignal::Abort), 0), Ok(Next::Stop));
    assert_eq!(BinaryExecutor::next(10, 2, Some(ExecutorSignal::JumpTo(7)), 3), Ok(Next::At(7)));
    assert_eq!(BinaryExecutor::next(10, 2, Some(ExecutorSignal::JumpTo(70)), 3), Ok(Next::At(70)));
    // Opcode at 2, payload of 3 bytes, 4 bytes left: the next opcode is at 6.
    assert_eq!(BinaryExecutor::next(10, 2, None, 4), Ok(Next::At(6)));
    assert_eq!(BinaryExecutor::next(10, 2, None, 7), Ok(Next::At(3)));
    assert_eq!(BinaryExecutor::next(10, 9, None, 0), Ok(Next::At(10)));
    assert_eq!(BinaryExecutor::next(10, 2, None, 8), Err(ExectError::DecodeError));
    assert_eq!(BinaryExecutor::next(10, 10, None, 0), Err(ExectError::DecodeError));
}

#[test]
fn jump_rebases_the_executor() {
    let log = new_log();
    let registry = full_registry(&log);
    let program = vec![0xFF, 0xFF, MARK_A, 9];
    let mut executor = BinaryExecutor::new(&program);
    executor.jump(2);
    assert_eq!(executor.buffer, &[MARK_A, 9]);
    assert_eq!(executor.execute(&registry), Ok(()));
    assert_eq!(logged(&log), vec!["0x01:9"]);
    executor.jump(2);
    assert!(executor.buffer.is_empty());
}

#[test]
fn add_takes_opcode_and_payload_from_the_instruction() {
    let log = new_log();
    let registry = full_registry(&log);
    let program = BinaryBuilder::new()
        .add(TestInstruction { code: MARK_A, behaviour: Behaviour::Mark, value: 5, log: log.clone() })
        .add(TestInstruction { code: STOP, behaviour: Behaviour::Stop, value: 0, log: log.clone() })
        .build();
    assert_eq!(program, vec![MARK_A, 5, STOP]);
    assert_eq!(BinaryExecutor::new(&program).execute(&registry), Ok(()));
    assert_eq!(logged(&log), vec!["0x01:5", "0x20:0"]);
}
