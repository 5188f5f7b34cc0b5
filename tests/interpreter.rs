use quake3_qvm::{Instruction, QVM};
use qvm_interp::{
    Fault, FaultKind, Interpreter, NativeHandler, Program, State, Symbol, SymbolMap,
};

fn program(code: Vec<Instruction>) -> Program {
    Program { instructions: code, data: vec![], lit: vec![], bss_length: 0 }
}

fn run(code: Vec<Instruction>) -> Interpreter {
    let mut interp = Interpreter::new(program(code), 64);
    interp.run(1000);
    interp
}

fn fault(kind: FaultKind, address: u32) -> State {
    State::HaltedFault(Fault { kind, address })
}

#[test]
fn interpreter_new() {
    let qvm = QVM::new(vec![Instruction::UNDEF], vec![0xDEADBEEF], vec![], 0).unwrap();
    let program = Program {
        instructions: qvm.instructions().clone(),
        data: qvm.data().clone(),
        lit: qvm.lit().clone(),
        bss_length: qvm.bss_length(),
    };
    let interpreter = Interpreter::new(program, 0);
    assert_eq!(interpreter.program_counter(), 0);
    assert_eq!(interpreter.stack_pointer(), 4);
    assert_eq!(interpreter.memory()[0], 0xEF);
    assert_eq!(interpreter.memory()[1], 0xBE);
    assert_eq!(interpreter.memory()[2], 0xAD);
    assert_eq!(interpreter.memory()[3], 0xDE);
    assert_eq!(interpreter.instructions(), &vec![Instruction::UNDEF]);
}

#[test]
fn image_layout_with_literals_bss_and_stack() {
    let p = Program {
        instructions: vec![Instruction::IGNORE],
        data: vec![0x01020304],
        lit: vec![9, 8],
        bss_length: 1,
    };
    let interp = Interpreter::new(p, 8);
    assert_eq!(
        interp.memory(),
        &vec![4, 3, 2, 1, 9, 8, 0, 0, 0, 0, 0, 0, 0, 0, 0, 0, 0, 0]
    );
    assert_eq!(interp.stack_base(), 10);
    assert_eq!(interp.stack_pointer(), 18);
    assert_eq!(interp.state(), State::Ready);
}

#[test]
fn exit_only_program_halts_ok() {
    let interp = run(vec![Instruction::LEAVE(0)]);
    assert_eq!(interp.state(), State::HaltedOk(0));
}

#[test]
fn exit_status_is_top_of_stack() {
    let interp = run(vec![Instruction::CONST(5), Instruction::LEAVE(4)]);
    assert_eq!(interp.state(), State::HaltedOk(5));
}

#[test]
fn undecodable_instruction_faults_at_its_address() {
    let mut interp = Interpreter::new(
        program(vec![Instruction::IGNORE, Instruction::IGNORE, Instruction::UNDEF]),
        64,
    );
    assert_eq!(interp.run(100), fault(FaultKind::InvalidOpcode, 2));
    let symbols = SymbolMap::with_symbols(vec![Symbol::new(1, "entry")]);
    assert_eq!(interp.fault_location(&symbols), Some("entry+1".to_string()));
    assert_eq!(interp.fault_location(&symbols), symbols.symbol_name(2));
    assert_eq!(interp.fault_location(&SymbolMap::new()), None);
}

#[test]
fn float_instructions_fault_as_invalid() {
    let interp = run(vec![Instruction::CONST(1), Instruction::CONST(2), Instruction::ADDF]);
    assert_eq!(interp.state(), fault(FaultKind::InvalidOpcode, 2));
}

#[test]
fn push_past_stack_base_overflows() {
    let mut interp = Interpreter::new(
        program(vec![Instruction::CONST(1), Instruction::CONST(2), Instruction::LEAVE(8)]),
        4,
    );
    assert_eq!(interp.run(10), fault(FaultKind::StackOverflow, 1));
    assert_eq!(interp.stack_pointer(), interp.stack_base());
    assert_eq!(interp.memory(), &vec![1, 0, 0, 0]);
}

#[test]
fn pop_from_empty_stack_underflows() {
    let interp = run(vec![Instruction::POP]);
    assert_eq!(interp.state(), fault(FaultKind::StackUnderflow, 0));
    let interp = run(vec![Instruction::CONST(1), Instruction::ADD]);
    assert_eq!(interp.state(), fault(FaultKind::StackUnderflow, 1));
}

#[test]
fn enter_beyond_stack_overflows() {
    let interp = run(vec![Instruction::ENTER(65)]);
    assert_eq!(interp.state(), fault(FaultKind::StackOverflow, 0));
}

#[test]
fn native_call_suspends_and_resumes() {
    let mut interp = Interpreter::new(
        program(vec![Instruction::CONST(0xFFFF_FFFF), Instruction::CALL, Instruction::LEAVE(4)]),
        64,
    );
    assert_eq!(interp.run(10), State::Suspended(0));
    assert_eq!(interp.program_counter(), 2);
    assert_eq!(interp.resume(7), State::Running);
    assert_eq!(interp.program_counter(), 2);
    let sp = interp.stack_pointer();
    assert_eq!(&interp.memory()[sp..sp + 4], &[7, 0, 0, 0]);
    assert_eq!(interp.run(10), State::HaltedOk(7));
}

#[test]
fn native_call_selector_is_minus_one_minus_target() {
    let interp = run(vec![Instruction::CONST(0xFFFF_FFF0), Instruction::CALL]);
    assert_eq!(interp.state(), State::Suspended(15));
}

#[test]
fn unanswered_native_call_faults() {
    let mut interp = Interpreter::new(
        program(vec![Instruction::CONST(0xFFFF_FFFE), Instruction::CALL]),
        64,
    );
    interp.run(10);
    assert_eq!(interp.answer(None), fault(FaultKind::UnhandledNativeCall, 1));
}

struct Host;

impl NativeHandler for Host {
    fn native_call(&mut self, selector: u32, _machine: &Interpreter) -> Option<u32> {
        if selector == 0 { Some(42) } else { None }
    }
}

#[test]
fn run_with_handler_answers_native_calls() {
    let mut interp = Interpreter::new(
        program(vec![Instruction::CONST(0xFFFF_FFFF), Instruction::CALL, Instruction::LEAVE(4)]),
        64,
    );
    assert_eq!(interp.run_with(&mut Host, 100), State::HaltedOk(42));
    let mut interp = Interpreter::new(
        program(vec![Instruction::CONST(0xFFFF_FFFE), Instruction::CALL, Instruction::LEAVE(4)]),
        64,
    );
    assert_eq!(interp.run_with(&mut Host, 100), fault(FaultKind::UnhandledNativeCall, 1));
}

#[test]
fn call_enter_leave_return() {
    let interp = run(vec![
        Instruction::CONST(3),
        Instruction::CALL,
        Instruction::LEAVE(0),
        Instruction::ENTER(4),
        Instruction::LEAVE(4),
    ]);
    assert_eq!(interp.state(), State::HaltedOk(0));
}

#[test]
fn call_to_missing_instruction_faults() {
    let interp = run(vec![Instruction::CONST(9), Instruction::CALL]);
    assert_eq!(interp.state(), fault(FaultKind::InvalidJumpTarget, 1));
}

#[test]
fn arithmetic_results() {
    let cases: Vec<(u32, u32, Instruction, u32)> = vec![
        (7, 5, Instruction::SUB, 2),
        (5, 7, Instruction::SUB, 0xFFFF_FFFE),
        (0xFFFF_FFFF, 1, Instruction::ADD, 0),
        (6, 7, Instruction::MULI, 42),
        ((-7i32) as u32, 2, Instruction::DIVI, (-3i32) as u32),
        ((-7i32) as u32, 2, Instruction::MODI, (-1i32) as u32),
        (0x8000_0000, 0xFFFF_FFFF, Instruction::DIVI, 0x8000_0000),
        (0x8000_0000, 0xFFFF_FFFF, Instruction::MODI, 0),
        (7, 2, Instruction::DIVU, 3),
        (7, 2, Instruction::MODU, 1),
        (0b1100, 0b1010, Instruction::BAND, 0b1000),
        (0b1100, 0b1010, Instruction::BOR, 0b1110),
        (0b1100, 0b1010, Instruction::BXOR, 0b0110),
        (1, 4, Instruction::LSH, 16),
        (0x8000_0000, 4, Instruction::RSHI, 0xF800_0000),
        (0x8000_0000, 4, Instruction::RSHU, 0x0800_0000),
    ];
    for (a, b, op, expected) in cases {
        let interp = run(vec![
            Instruction::CONST(a),
            Instruction::CONST(b),
            op,
            Instruction::LEAVE(4),
        ]);
        assert_eq!(interp.state(), State::HaltedOk(expected), "{:?}", op);
    }
}

#[test]
fn unary_results() {
    let cases: Vec<(u32, Instruction, u32)> = vec![
        (0x80, Instruction::SEX8, 0xFFFF_FF80),
        (0x17F, Instruction::SEX8, 0x7F),
        (0x8000, Instruction::SEX16, 0xFFFF_8000),
        (5, Instruction::NEGI, (-5i32) as u32),
        (0, Instruction::BCOM, 0xFFFF_FFFF),
    ];
    for (a, op, expected) in cases {
        let interp = run(vec![Instruction::CONST(a), op, Instruction::LEAVE(4)]);
        assert_eq!(interp.state(), State::HaltedOk(expected), "{:?}", op);
    }
}

#[test]
fn divide_by_zero_faults() {
    let interp = run(vec![Instruction::CONST(1), Instruction::CONST(0), Instruction::DIVU]);
    assert_eq!(interp.state(), fault(FaultKind::DivideByZero, 2));
    let interp = run(vec![Instruction::CONST(1), Instruction::CONST(0), Instruction::MODI]);
    assert_eq!(interp.state(), fault(FaultKind::DivideByZero, 2));
}

#[test]
fn store_then_load_words_and_bytes() {
    let p = Program {
        instructions: vec![
            Instruction::CONST(0),
            Instruction::CONST(0x1234_5678),
            Instruction::STORE4,
            Instruction::CONST(1),
            Instruction::LOAD1,
            Instruction::LEAVE(4),
        ],
        data: vec![0],
        lit: vec![],
        bss_length: 0,
    };
    let mut interp = Interpreter::new(p, 64);
    assert_eq!(interp.run(100), State::HaltedOk(0x56));
    assert_eq!(&interp.memory()[0..4], &[0x78, 0x56, 0x34, 0x12]);
}

#[test]
fn load_two_bytes() {
    let p = Program {
        instructions: vec![Instruction::CONST(1), Instruction::LOAD2, Instruction::LEAVE(4)],
        data: vec![0x1234_5678],
        lit: vec![],
        bss_length: 0,
    };
    let mut interp = Interpreter::new(p, 64);
    assert_eq!(interp.run(100), State::HaltedOk(0x3456));
}

#[test]
fn out_of_bounds_access_faults() {
    let interp = run(vec![Instruction::CONST(1000), Instruction::LOAD4]);
    assert_eq!(interp.state(), fault(FaultKind::OutOfBoundsAccess, 1));
    let interp = run(vec![Instruction::CONST(62), Instruction::CONST(1), Instruction::STORE4]);
    assert_eq!(interp.state(), fault(FaultKind::OutOfBoundsAccess, 2));
}

#[test]
fn block_copy_moves_bytes() {
    let p = Program {
        instructions: vec![
            Instruction::CONST(4),
            Instruction::CONST(0),
            Instruction::BLOCK_COPY(3),
            Instruction::LEAVE(0),
        ],
        data: vec![0x0403_0201, 0],
        lit: vec![],
        bss_length: 0,
    };
    let mut interp = Interpreter::new(p, 64);
    assert_eq!(interp.run(100), State::HaltedOk(0));
    assert_eq!(&interp.memory()[0..8], &[1, 2, 3, 4, 1, 2, 3, 0]);
}

#[test]
fn jumps_and_branches() {
    let interp = run(vec![
        Instruction::CONST(3),
        Instruction::JUMP,
        Instruction::UNDEF,
        Instruction::CONST(9),
        Instruction::LEAVE(4),
    ]);
    assert_eq!(interp.state(), State::HaltedOk(9));
    let interp = run(vec![
        Instruction::CONST((-1i32) as u32),
        Instruction::CONST(2),
        Instruction::LTI(5),
        Instruction::CONST(0),
        Instruction::LEAVE(4),
        Instruction::CONST(1),
        Instruction::LEAVE(4),
    ]);
    assert_eq!(interp.state(), State::HaltedOk(1));
    let interp = run(vec![
        Instruction::CONST((-1i32) as u32),
        Instruction::CONST(2),
        Instruction::LTU(5),
        Instruction::CONST(0),
        Instruction::LEAVE(4),
        Instruction::CONST(1),
        Instruction::LEAVE(4),
    ]);
    assert_eq!(interp.state(), State::HaltedOk(0));
}

#[test]
fn bad_jump_target_faults() {
    let interp = run(vec![Instruction::CONST(1), Instruction::CONST(1), Instruction::EQ(50)]);
    assert_eq!(interp.state(), fault(FaultKind::InvalidJumpTarget, 2));
}

#[test]
fn running_off_the_code_faults() {
    let interp = run(vec![Instruction::IGNORE]);
    assert_eq!(interp.state(), fault(FaultKind::InvalidJumpTarget, 1));
}

#[test]
fn halted_machine_does_not_step() {
    let mut interp = run(vec![Instruction::LEAVE(0)]);
    let pc = interp.program_counter();
    assert_eq!(interp.step(), State::HaltedOk(0));
    assert_eq!(interp.program_counter(), pc);
}

#[test]
fn local_and_arg_address_the_frame() {
    let interp = run(vec![
        Instruction::ENTER(8),
        Instruction::CONST(77),
        Instruction::ARG(0),
        Instruction::LOCAL(0),
        Instruction::LOAD4,
        Instruction::LEAVE(16),
    ]);
    assert_eq!(interp.state(), fault(FaultKind::StackUnderflow, 5));
    let interp = run(vec![
        Instruction::ENTER(8),
        Instruction::CONST(77),
        Instruction::ARG(0),
        Instruction::LOCAL(0),
        Instruction::LOAD4,
        Instruction::LEAVE(12),
    ]);
    assert_eq!(interp.state(), State::HaltedOk(77));
}

struct Recorder {
    seen: Vec<u32>,
}

impl NativeHandler for Recorder {
    fn native_call(&mut self, selector: u32, machine: &Interpreter) -> Option<u32> {
        self.seen.push(selector);
        let sp = machine.stack_pointer();
        let mem = machine.memory();
        let arg = u32::from_le_bytes([mem[sp], mem[sp + 1], mem[sp + 2], mem[sp + 3]]);
        Some(arg + 1)
    }
}

#[test]
fn handler_sees_selector_and_arguments_and_reply_is_pushed() {
    let mut interp = Interpreter::new(
        program(vec![
            Instruction::CONST(41),
            Instruction::CONST(0xFFFF_FFFD),
            Instruction::CALL,
            Instruction::LEAVE(8),
        ]),
        64,
    );
    let mut host = Recorder { seen: vec![] };
    assert_eq!(interp.run_with(&mut host, 100), State::HaltedOk(42));
    assert_eq!(host.seen, vec![2]);
}

#[test]
fn run_with_without_native_calls_matches_run() {
    let code = vec![
        Instruction::CONST(7),
        Instruction::CONST(5),
        Instruction::SUB,
        Instruction::LEAVE(4),
    ];
    let mut a = Interpreter::new(program(code.clone()), 64);
    let mut b = Interpreter::new(program(code), 64);
    assert_eq!(a.run(100), b.run_with(&mut Host, 100));
    assert_eq!(a.memory(), b.memory());
    assert_eq!(a.stack_pointer(), b.stack_pointer());
    assert_eq!(a.program_counter(), b.program_counter());
}

#[test]
fn run_with_budget_leaves_machine_running() {
    let mut interp = Interpreter::new(program(vec![Instruction::CONST(3), Instruction::JUMP]), 64);
    interp.run_with(&mut Host, 1);
    assert_eq!(interp.state(), State::Running);
    assert_eq!(interp.program_counter(), 1);
}
