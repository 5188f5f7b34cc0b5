//! The interpreter: memory image, stack and one-instruction-at-a-time
//! execution with every access bounds-checked.
//!
//! Calling convention. All values are 32-bit words on one stack that lives in
//! the top `stack_size` bytes of memory and grows downwards. `CALL` pops its
//! target and pushes the index of the next instruction as return address.
//! `ENTER n` reserves an `n`-byte frame; `LEAVE n` releases it and pops the
//! return address. A `LEAVE` that finds no return address below the frame (the
//! entry procedure returns) halts the machine successfully; its status is the
//! word on top of the stack, or 0 when the stack is empty. A `CALL` whose
//! target is negative as a signed word is a native call: the machine suspends
//! with selector `-1 - target` until the host resumes it with a value.
//! Floating-point instructions are not executed: they fault as invalid opcodes.
use vstd::prelude::*;
use quake3_qvm::Instruction;
use crate::program::Program;
use crate::symbols::{resolve, Address, SymbolMap};

verus! {

/// Default size in bytes of the stack region.
pub const STACK_SIZE: usize = 0x10000;

/// What went wrong when execution stopped with a fault.
#[derive(Debug, Clone, Copy, PartialEq, Eq, Structural)]
pub enum FaultKind {
    InvalidOpcode,
    StackOverflow,
    StackUnderflow,
    OutOfBoundsAccess,
    InvalidJumpTarget,
    DivideByZero,
    UnhandledNativeCall,
}

/// A fault and the index of the instruction that raised it.
#[derive(Debug, Clone, Copy, PartialEq, Eq, Structural)]
pub struct Fault {
    pub kind: FaultKind,
    pub address: Address,
}

/// Where the machine stands.
#[derive(Debug, Clone, Copy, PartialEq, Eq, Structural)]
pub enum State {
    /// Built, nothing executed yet.
    Ready,
    Running,
    /// Waiting for the host to answer native call `selector`.
    Suspended(u32),
    /// Exited with a status value.
    HaltedOk(u32),
    HaltedFault(Fault),
}

/// The mathematical state of an interpreter.
pub struct Machine {
    pub code: Seq<Instruction>,
    pub pc: int,
    pub sp: int,
    pub base: int,
    pub mem: Seq<u8>,
    pub state: State,
}

/// The little-endian word at byte `a`.
pub open spec fn word_at(mem: Seq<u8>, a: int) -> u32 {
    (mem[a] as int + mem[a + 1] as int * 0x100 + mem[a + 2] as int * 0x1_0000 + mem[a + 3] as int
        * 0x100_0000) as u32
}

/// `mem` with the little-endian bytes of `v` at `a`.
pub open spec fn put_word(mem: Seq<u8>, a: int, v: u32) -> Seq<u8> {
    mem.update(a, (v % 0x100) as u8).update(a + 1, (v / 0x100 % 0x100) as u8).update(
        a + 2,
        (v / 0x1_0000 % 0x100) as u8,
    ).update(a + 3, (v / 0x100_0000) as u8)
}

/// The little-endian bytes of the words of `d`.
pub open spec fn word_bytes(d: Seq<u32>) -> Seq<u8>
    decreases d.len(),
{
    if d.len() == 0 {
        Seq::empty()
    } else {
        word_bytes(d.drop_last()) + seq![
            (d.last() % 0x100) as u8,
            (d.last() / 0x100 % 0x100) as u8,
            (d.last() / 0x1_0000 % 0x100) as u8,
            (d.last() / 0x100_0000) as u8,
        ]
    }
}

proof fn lemma_word_bytes_len(d: Seq<u32>)
    ensures
        word_bytes(d).len() == 4 * d.len(),
    decreases d.len(),
{
    if d.len() > 0 {
        lemma_word_bytes_len(d.drop_last());
    }
}

proof fn lemma_word_bytes_at(d: Seq<u32>, i: int)
    requires
        0 <= i < d.len(),
    ensures
        word_bytes(d).len() == 4 * d.len(),
        word_bytes(d)[4 * i] == (d[i] % 0x100) as u8,
        word_bytes(d)[4 * i + 1] == (d[i] / 0x100 % 0x100) as u8,
        word_bytes(d)[4 * i + 2] == (d[i] / 0x1_0000 % 0x100) as u8,
        word_bytes(d)[4 * i + 3] == (d[i] / 0x100_0000) as u8,
    decreases d.len(),
{
    lemma_word_bytes_len(d);
    lemma_word_bytes_len(d.drop_last());
    if i < d.len() - 1 {
        lemma_word_bytes_at(d.drop_last(), i);
    }
}

/// The memory that a program starts with: data words, literal bytes, then
/// zeroed bss and stack.
pub open spec fn initial_memory(p: Program, stack_size: nat) -> Seq<u8> {
    word_bytes(p.data@) + p.lit@ + Seq::new((p.bss_length * 4 + stack_size) as nat, |i: int| 0u8)
}

/// The value of `w` bytes (1, 2 or 4) read little-endian at `a`.
pub open spec fn load_at(mem: Seq<u8>, a: int, w: int) -> u32 {
    if w == 1 {
        mem[a] as u32
    } else if w == 2 {
        (mem[a] as int + mem[a + 1] as int * 0x100) as u32
    } else {
        word_at(mem, a)
    }
}

/// `mem` with the low `w` bytes (1, 2 or 4) of `v` stored little-endian at `a`.
pub open spec fn store_at(mem: Seq<u8>, a: int, w: int, v: u32) -> Seq<u8> {
    if w == 1 {
        mem.update(a, (v % 0x100) as u8)
    } else if w == 2 {
        mem.update(a, (v % 0x100) as u8).update(a + 1, (v / 0x100 % 0x100) as u8)
    } else {
        put_word(mem, a, v)
    }
}

/// `mem` with the `n` bytes at `src` copied to `dst`.
pub open spec fn copy_block(mem: Seq<u8>, src: int, dst: int, n: int) -> Seq<u8> {
    Seq::new(mem.len(), |i: int| if dst <= i < dst + n { mem[src + i - dst] } else { mem[i] })
}

/// `m` stopped by a fault of `kind` at instruction `at`.
pub open spec fn fault_at(m: Machine, kind: FaultKind, at: u32) -> Machine {
    Machine { state: State::HaltedFault(Fault { kind, address: at }), ..m }
}

/// The word on top of the stack, then the one below it.
pub open spec fn top0(m: Machine) -> u32 {
    word_at(m.mem, m.sp)
}

pub open spec fn top1(m: Machine) -> u32 {
    word_at(m.mem, m.sp + 4)
}

/// The stack holds at least `k` words.
pub open spec fn holds(m: Machine, k: int) -> bool {
    m.sp + 4 * k <= m.mem.len()
}

/// Pushes `v`, or faults when the stack would pass its base.
pub open spec fn push_spec(m: Machine, v: u32, at: u32) -> Machine {
    if m.sp - 4 < m.base {
        fault_at(m, FaultKind::StackOverflow, at)
    } else {
        Machine { sp: m.sp - 4, mem: put_word(m.mem, m.sp - 4, v), ..m }
    }
}

/// Replaces the top word by `v`.
pub open spec fn set_top(m: Machine, v: u32) -> Machine {
    Machine { mem: put_word(m.mem, m.sp, v), ..m }
}

/// Sets the program counter to `target`, which must index an instruction.
pub open spec fn jump_to(m: Machine, target: u32, at: u32) -> Machine {
    if target >= m.code.len() {
        fault_at(m, FaultKind::InvalidJumpTarget, at)
    } else {
        Machine { pc: target as int, ..m }
    }
}

/// `a` sign-extended from its low `bits` bits.
pub open spec fn sign_extend(a: u32, bits: u32) -> u32 {
    if bits == 8 {
        if a % 0x100 >= 0x80 { (a % 0x100 + 0xFFFF_FF00) as u32 } else { a % 0x100 }
    } else {
        if a % 0x1_0000 >= 0x8000 { (a % 0x1_0000 + 0xFFFF_0000) as u32 } else { a % 0x1_0000 }
    }
}

/// The result of a one-operand instruction.
pub open spec fn unary_result(ins: Instruction, a: u32) -> u32 {
    match ins {
        Instruction::SEX8 => sign_extend(a, 8),
        Instruction::SEX16 => sign_extend(a, 16),
        Instruction::NEGI => 0u32.wrapping_sub(a),
        _ => (0xFFFF_FFFF - a) as u32,
    }
}

/// The result of a two-operand instruction on `a` (pushed first) and `b`;
/// nothing when it divides by zero. Signed division that overflows wraps.
pub open spec fn binary_result(ins: Instruction, a: u32, b: u32) -> Option<u32> {
    match ins {
        Instruction::ADD => Some(a.wrapping_add(b)),
        Instruction::SUB => Some(a.wrapping_sub(b)),
        Instruction::MULI | Instruction::MULU => Some(a.wrapping_mul(b)),
        Instruction::DIVU => if b == 0 { None } else { Some(a / b) },
        Instruction::MODU => if b == 0 { None } else { Some(a % b) },
        Instruction::DIVI => if b == 0 {
            None
        } else {
            match (a as i32).checked_div(b as i32) {
                Some(q) => Some(q as u32),
                None => Some(a),
            }
        },
        Instruction::MODI => if b == 0 {
            None
        } else {
            match (a as i32).checked_rem(b as i32) {
                Some(q) => Some(q as u32),
                None => Some(0),
            }
        },
        Instruction::BAND => Some(a & b),
        Instruction::BOR => Some(a | b),
        Instruction::BXOR => Some(a ^ b),
        Instruction::LSH => Some(a.wrapping_shl(b)),
        Instruction::RSHI => Some(((a as i32).wrapping_shr(b)) as u32),
        _ => Some(a.wrapping_shr(b)),
    }
}

/// Whether a conditional jump on `a` (pushed first) and `b` is taken.
pub open spec fn branch_taken(ins: Instruction, a: u32, b: u32) -> bool {
    match ins {
        Instruction::EQ(_) => a == b,
        Instruction::NE(_) => a != b,
        Instruction::LTI(_) => (a as i32) < (b as i32),
        Instruction::LEI(_) => (a as i32) <= (b as i32),
        Instruction::GTI(_) => (a as i32) > (b as i32),
        Instruction::GEI(_) => (a as i32) >= (b as i32),
        Instruction::LTU(_) => a < b,
        Instruction::LEU(_) => a <= b,
        Instruction::GTU(_) => a > b,
        _ => a >= b,
    }
}

/// `LEAVE n`: release the frame, then return to the popped address, or halt
/// when no return address lies below the frame.
pub open spec fn leave_spec(m: Machine, n: u32, at: u32) -> Machine {
    let s = m.sp + n;
    if s > m.mem.len() {
        fault_at(m, FaultKind::StackUnderflow, at)
    } else if s == m.mem.len() {
        let status = if holds(m, 1) { top0(m) } else { 0 };
        Machine { sp: s, state: State::HaltedOk(status), ..m }
    } else if s + 4 > m.mem.len() {
        fault_at(m, FaultKind::StackUnderflow, at)
    } else {
        jump_to(Machine { sp: s + 4, ..m }, word_at(m.mem, s), at)
    }
}

/// `CALL`: pop the target; a negative one suspends for a native call, another
/// pushes the return address and jumps.
pub open spec fn call_spec(m: Machine, at: u32) -> Machine {
    if !holds(m, 1) {
        fault_at(m, FaultKind::StackUnderflow, at)
    } else {
        let t = top0(m);
        let m1 = Machine { sp: m.sp + 4, ..m };
        if t >= 0x8000_0000 {
            Machine { state: State::Suspended((0xFFFF_FFFF - t) as u32), ..m1 }
        } else if t >= m.code.len() {
            fault_at(m1, FaultKind::InvalidJumpTarget, at)
        } else {
            push_spec(Machine { pc: t as int, ..m1 }, m.pc as u32, at)
        }
    }
}

/// What one instruction `ins`, fetched from `at`, does to `m`, whose program
/// counter already points past it.
#[verifier::opaque]
pub open spec fn exec_spec(m: Machine, ins: Instruction, at: u32) -> Machine {
    let top = m.mem.len();
    match ins {
        Instruction::IGNORE | Instruction::BREAK => m,
        Instruction::ENTER(n) => if m.sp - n < m.base {
            fault_at(m, FaultKind::StackOverflow, at)
        } else {
            Machine { sp: m.sp - n, ..m }
        },
        Instruction::LEAVE(n) => leave_spec(m, n, at),
        Instruction::CALL => call_spec(m, at),
        Instruction::PUSH => push_spec(m, 0, at),
        Instruction::POP => if !holds(m, 1) {
            fault_at(m, FaultKind::StackUnderflow, at)
        } else {
            Machine { sp: m.sp + 4, ..m }
        },
        Instruction::CONST(v) => push_spec(m, v, at),
        Instruction::LOCAL(off) => push_spec(m, (m.sp as u32).wrapping_add(off), at),
        Instruction::JUMP => if !holds(m, 1) {
            fault_at(m, FaultKind::StackUnderflow, at)
        } else {
            jump_to(Machine { sp: m.sp + 4, ..m }, top0(m), at)
        },
        Instruction::EQ(t) | Instruction::NE(t) | Instruction::LTI(t) | Instruction::LEI(t)
        | Instruction::GTI(t) | Instruction::GEI(t) | Instruction::LTU(t) | Instruction::LEU(t)
        | Instruction::GTU(t) | Instruction::GEU(t) => if !holds(m, 2) {
            fault_at(m, FaultKind::StackUnderflow, at)
        } else {
            let m1 = Machine { sp: m.sp + 8, ..m };
            if branch_taken(ins, top1(m), top0(m)) {
                jump_to(m1, t, at)
            } else {
                m1
            }
        },
        Instruction::LOAD1 | Instruction::LOAD2 | Instruction::LOAD4 => {
            let w: int = match ins {
                Instruction::LOAD1 => 1,
                Instruction::LOAD2 => 2,
                _ => 4,
            };
            if !holds(m, 1) {
                fault_at(m, FaultKind::StackUnderflow, at)
            } else if top0(m) + w > top {
                fault_at(m, FaultKind::OutOfBoundsAccess, at)
            } else {
                set_top(m, load_at(m.mem, top0(m) as int, w))
            }
        },
        Instruction::STORE1 | Instruction::STORE2 | Instruction::STORE4 => {
            let w: int = match ins {
                Instruction::STORE1 => 1,
                Instruction::STORE2 => 2,
                _ => 4,
            };
            if !holds(m, 2) {
                fault_at(m, FaultKind::StackUnderflow, at)
            } else if top1(m) + w > top {
                fault_at(m, FaultKind::OutOfBoundsAccess, at)
            } else {
                Machine { sp: m.sp + 8, mem: store_at(m.mem, top1(m) as int, w, top0(m)), ..m }
            }
        },
        Instruction::ARG(off) => if !holds(m, 1) {
            fault_at(m, FaultKind::StackUnderflow, at)
        } else if m.sp + 4 + off + 4 > top {
            fault_at(m, FaultKind::OutOfBoundsAccess, at)
        } else {
            Machine { sp: m.sp + 4, mem: put_word(m.mem, m.sp + 4 + off, top0(m)), ..m }
        },
        Instruction::BLOCK_COPY(n) => if !holds(m, 2) {
            fault_at(m, FaultKind::StackUnderflow, at)
        } else if top0(m) + n > top || top1(m) + n > top {
            fault_at(m, FaultKind::OutOfBoundsAccess, at)
        } else {
            Machine {
                sp: m.sp + 8,
                mem: copy_block(m.mem, top0(m) as int, top1(m) as int, n as int),
                ..m
            }
        },
        Instruction::SEX8 | Instruction::SEX16 | Instruction::NEGI | Instruction::BCOM => if !holds(
            m,
            1,
        ) {
            fault_at(m, FaultKind::StackUnderflow, at)
        } else {
            set_top(m, unary_result(ins, top0(m)))
        },
        Instruction::ADD | Instruction::SUB | Instruction::MULI | Instruction::MULU
        | Instruction::DIVI | Instruction::DIVU | Instruction::MODI | Instruction::MODU
        | Instruction::BAND | Instruction::BOR | Instruction::BXOR | Instruction::LSH
        | Instruction::RSHI | Instruction::RSHU => if !holds(m, 2) {
            fault_at(m, FaultKind::StackUnderflow, at)
        } else {
            match binary_result(ins, top1(m), top0(m)) {
                None => fault_at(m, FaultKind::DivideByZero, at),
                Some(r) => set_top(Machine { sp: m.sp + 4, ..m }, r),
            }
        },
        _ => fault_at(m, FaultKind::InvalidOpcode, at),
    }
}

/// One step of the machine: nothing once halted or suspended; otherwise the
/// instruction at the program counter, or an invalid-jump fault when the
/// program counter has run off the code.
pub open spec fn step_spec(m: Machine) -> Machine {
    match m.state {
        State::Ready | State::Running => if m.pc >= m.code.len() {
            fault_at(m, FaultKind::InvalidJumpTarget, m.pc as u32)
        } else {
            exec_spec(
                Machine { pc: m.pc + 1, state: State::Running, ..m },
                m.code[m.pc],
                m.pc as u32,
            )
        },
        _ => m,
    }
}

/// Resuming a suspended machine with the native call's result `v`: `v` is
/// pushed and execution goes on after the call; any other machine is left as
/// it is.
pub open spec fn resume_spec(m: Machine, v: u32) -> Machine {
    match m.state {
        State::Suspended(_) => push_spec(Machine { state: State::Running, ..m }, v, (m.pc - 1) as u32),
        _ => m,
    }
}

/// At most `fuel` steps, stopping early once the machine halts or suspends.
pub open spec fn run_spec(m: Machine, fuel: nat) -> Machine
    decreases fuel,
{
    if fuel == 0 {
        m
    } else {
        match m.state {
            State::Ready | State::Running => run_spec(step_spec(m), (fuel - 1) as nat),
            _ => m,
        }
    }
}

/// A host's answer to a suspended native call: its result, or nothing when
/// the host has no function for the selector, which faults at the call.
pub open spec fn answer_spec(m: Machine, reply: Option<u32>) -> Machine {
    match m.state {
        State::Suspended(_) => match reply {
            Some(v) => resume_spec(m, v),
            None => fault_at(m, FaultKind::UnhandledNativeCall, (m.pc - 1) as u32),
        },
        _ => m,
    }
}

/// At most `fuel` steps with native calls answered from `replies`: each entry
/// holds the selector of the call it answers and the host's reply. A run stops
/// early once the machine halts, or when it is suspended and the next entry
/// is missing or answers another selector.
pub open spec fn run_with_spec(m: Machine, replies: Seq<(u32, Option<u32>)>, fuel: nat) -> Machine
    decreases fuel,
{
    if fuel == 0 {
        m
    } else {
        match m.state {
            State::Ready | State::Running => run_with_spec(step_spec(m), replies, (fuel - 1) as nat),
            State::Suspended(sel) => if replies.len() > 0 && replies[0].0 == sel {
                run_with_spec(
                    answer_spec(m, replies[0].1),
                    replies.drop_first(),
                    (fuel - 1) as nat,
                )
            } else {
                m
            },
            _ => m,
        }
    }
}

/// The run of `fuel` steps from `m` spends every step and answers exactly
/// the calls in `replies`.
pub open spec fn spends_all(m: Machine, replies: Seq<(u32, Option<u32>)>, fuel: nat) -> bool
    decreases fuel,
{
    if fuel == 0 {
        replies.len() == 0
    } else {
        match m.state {
            State::Ready | State::Running => spends_all(step_spec(m), replies, (fuel - 1) as nat),
            State::Suspended(sel) => replies.len() > 0 && replies[0].0 == sel && spends_all(
                answer_spec(m, replies[0].1),
                replies.drop_first(),
                (fuel - 1) as nat,
            ),
            _ => false,
        }
    }
}

/// A run that spends all its steps on its replies can be continued by a
/// second run from where it ended.
proof fn lemma_run_with_compose(
    m: Machine,
    log: Seq<(u32, Option<u32>)>,
    k: nat,
    e: Seq<(u32, Option<u32>)>,
    j: nat,
)
    requires
        spends_all(m, log, k),
    ensures
        run_with_spec(m, log + e, k + j) == run_with_spec(run_with_spec(m, log, k), e, j),
        spends_all(run_with_spec(m, log, k), e, j) ==> spends_all(m, log + e, k + j),
    decreases k,
{
    if k == 0 {
        assert(log + e =~= e);
    } else {
        match m.state {
            State::Ready | State::Running => {
                lemma_run_with_compose(step_spec(m), log, (k - 1) as nat, e, j);
                assert((k + j - 1) as nat == (k - 1) as nat + j);
            },
            State::Suspended(sel) => {
                assert((log + e)[0] == log[0]);
                assert((log + e).drop_first() =~= log.drop_first() + e);
                lemma_run_with_compose(
                    answer_spec(m, log[0].1),
                    log.drop_first(),
                    (k - 1) as nat,
                    e,
                    j,
                );
                assert((k + j - 1) as nat == (k - 1) as nat + j);
            },
            _ => {},
        }
    }
}

/// Without a native call on the way, a run with replies is a plain run.
pub proof fn lemma_run_with_no_calls(m: Machine, replies: Seq<(u32, Option<u32>)>, fuel: nat)
    requires
        forall|k: nat| k <= fuel ==> !(#[trigger] run_spec(m, k).state is Suspended),
    ensures
        run_with_spec(m, replies, fuel) == run_spec(m, fuel),
    decreases fuel,
{
    assert(run_spec(m, 0) == m);
    if fuel > 0 {
        match m.state {
            State::Ready | State::Running => {
                let m1 = step_spec(m);
                assert forall|k: nat| k <= (fuel - 1) as nat implies !(#[trigger] run_spec(
                    m1,
                    k,
                ).state is Suspended) by {
                    assert(run_spec(m, k + 1) == run_spec(m1, k));
                }
                lemma_run_with_no_calls(m1, replies, (fuel - 1) as nat);
            },
            _ => {},
        }
    }
}

/// A run with replies is a function of the machine, the replies and the
/// budget: equal machines answered alike end alike.
pub proof fn lemma_run_with_deterministic(
    m1: Machine,
    m2: Machine,
    replies: Seq<(u32, Option<u32>)>,
    fuel: nat,
)
    requires
        m1 == m2,
    ensures
        run_with_spec(m1, replies, fuel) == run_with_spec(m2, replies, fuel),
{
}

/// The host functions that a module may call.
pub trait NativeHandler {
    /// Answers native call `selector`, made by `machine`, whose arguments lie on
    /// its stack; nothing when this host has no such function.
    fn native_call(&mut self, selector: u32, machine: &Interpreter) -> Option<u32>;
}

/// A word stored at `a` reads back unchanged.
pub proof fn lemma_word_round_trip(mem: Seq<u8>, a: int, v: u32)
    requires
        0 <= a,
        a + 4 <= mem.len(),
    ensures
        word_at(put_word(mem, a, v), a) == v,
{
    assert((v % 0x100) as int + (v / 0x100 % 0x100) as int * 0x100 + (v / 0x1_0000 % 0x100) as int
        * 0x1_0000 + (v / 0x100_0000) as int * 0x100_0000 == v as int) by (nonlinear_arith);
}

/// Each data word of a program reads back, little-endian, from the start of
/// the memory it is loaded into.
pub proof fn lemma_data_words_round_trip(p: Program, stack_size: nat, i: int)
    requires
        0 <= i < p.data@.len(),
    ensures
        word_at(initial_memory(p, stack_size), 4 * i) == p.data@[i],
{
    lemma_word_bytes_at(p.data@, i);
    let v = p.data@[i];
    assert((v % 0x100) as int + (v / 0x100 % 0x100) as int * 0x100 + (v / 0x1_0000 % 0x100) as int
        * 0x1_0000 + (v / 0x100_0000) as int * 0x100_0000 == v as int) by (nonlinear_arith);
}

/// Instructions that this core does not execute: padding and floating point.
pub open spec fn is_undecodable(ins: Instruction) -> bool {
    match ins {
        Instruction::UNDEF | Instruction::EQF(_) | Instruction::NEF(_) | Instruction::LTF(_)
        | Instruction::LEF(_) | Instruction::GTF(_) | Instruction::GEF(_) | Instruction::NEGF
        | Instruction::ADDF | Instruction::SUBF | Instruction::DIVF | Instruction::MULF
        | Instruction::CVIF | Instruction::CVFI => true,
        _ => false,
    }
}

/// A machine at the start of a program whose only instruction is `LEAVE 0`,
/// the return of the entry procedure, exits with status 0 and no fault.
pub proof fn lemma_exit_only_program(m: Machine, fuel: nat)
    requires
        machine_wf(m),
        m.code == seq![Instruction::LEAVE(0)],
        m.pc == 0,
        m.sp == m.mem.len(),
        m.state == State::Ready,
        fuel >= 1,
    ensures
        run_spec(m, fuel).state == State::HaltedOk(0),
{
    reveal(exec_spec);
    let m1 = step_spec(m);
    assert(m1.state == State::HaltedOk(0));
    assert(run_spec(m1, (fuel - 1) as nat) == m1);
}

/// An instruction that cannot be executed stops the machine with an
/// invalid-opcode fault at its own address.
pub proof fn lemma_undecodable_faults(m: Machine)
    requires
        machine_wf(m),
        m.state == State::Ready || m.state == State::Running,
        m.pc < m.code.len(),
        is_undecodable(m.code[m.pc]),
    ensures
        step_spec(m).state == State::HaltedFault(
            Fault { kind: FaultKind::InvalidOpcode, address: m.pc as u32 },
        ),
{
    reveal(exec_spec);
}

/// Running `a` steps and then `b` more is running `a + b` steps.
pub proof fn lemma_run_compose(m: Machine, a: nat, b: nat)
    ensures
        run_spec(m, a + b) == run_spec(run_spec(m, a), b),
    decreases a,
{
    if a > 0 {
        match m.state {
            State::Ready | State::Running => {
                lemma_run_compose(step_spec(m), (a - 1) as nat, b);
                assert((a + b - 1) as nat == (a - 1) as nat + b);
            },
            _ => {
                assert(run_spec(m, b) == m);
            },
        }
    }
}

/// A run that reaches an undecodable instruction at `A` without a fault ends
/// there, with an invalid-opcode fault at `A`, whatever budget remains.
pub proof fn lemma_run_stops_at_undecodable(m: Machine, k: nat, j: nat)
    requires
        machine_wf(m),
        run_spec(m, k).state == State::Ready || run_spec(m, k).state == State::Running,
        run_spec(m, k).pc < run_spec(m, k).code.len(),
        is_undecodable(run_spec(m, k).code[run_spec(m, k).pc]),
        j >= 1,
    ensures
        run_spec(m, k + j).state == State::HaltedFault(
            Fault { kind: FaultKind::InvalidOpcode, address: run_spec(m, k).pc as u32 },
        ),
{
    let mk = run_spec(m, k);
    lemma_run_keeps_stack(m, k);
    lemma_undecodable_faults(mk);
    lemma_run_compose(m, k, j);
    let m1 = step_spec(mk);
    assert(run_spec(mk, j) == run_spec(m1, (j - 1) as nat));
    assert(run_spec(m1, (j - 1) as nat) == m1);
}

/// Every step keeps the stack pointer within the stack region: a push that
/// would pass the base or a pop past the top is refused, never wrapped.
pub proof fn lemma_step_keeps_stack(m: Machine)
    requires
        machine_wf(m),
    ensures
        machine_wf(step_spec(m)),
        m.base <= step_spec(m).sp <= m.mem.len(),
        step_spec(m).base == m.base,
        step_spec(m).mem.len() == m.mem.len(),
{
    reveal(exec_spec);
}

/// However many steps a machine takes, its stack pointer stays within the
/// stack region and its memory keeps its size.
pub proof fn lemma_run_keeps_stack(m: Machine, fuel: nat)
    requires
        machine_wf(m),
    ensures
        machine_wf(run_spec(m, fuel)),
        m.base <= run_spec(m, fuel).sp <= m.mem.len(),
        run_spec(m, fuel).base == m.base,
        run_spec(m, fuel).mem.len() == m.mem.len(),
    decreases fuel,
{
    if fuel > 0 {
        match m.state {
            State::Ready | State::Running => {
                lemma_step_keeps_stack(m);
                lemma_run_keeps_stack(step_spec(m), (fuel - 1) as nat);
            },
            _ => {},
        }
    }
}

/// A step that faults on the stack's bounds writes nothing and leaves the
/// stack pointer where it was.
pub proof fn lemma_stack_fault_writes_nothing(m: Machine)
    requires
        machine_wf(m),
        step_spec(m).state == State::HaltedFault(
            Fault { kind: FaultKind::StackOverflow, address: m.pc as u32 },
        ) || step_spec(m).state == State::HaltedFault(
            Fault { kind: FaultKind::StackUnderflow, address: m.pc as u32 },
        ),
    ensures
        step_spec(m).mem == m.mem,
        step_spec(m).sp == m.sp,
{
    reveal(exec_spec);
}

/// `ins`, run with stack pointer `sp`, would push a word or reserve a frame
/// below `base`.
pub open spec fn grows_past_base(ins: Instruction, sp: int, base: int) -> bool {
    match ins {
        Instruction::CONST(_) | Instruction::PUSH | Instruction::LOCAL(_) => sp - 4 < base,
        Instruction::ENTER(n) => sp - n < base,
        _ => false,
    }
}

/// A push, or a frame, past the stack's base faults with a stack overflow and leaves the stack
/// pointer and memory as they were.
pub proof fn lemma_push_overflow(m: Machine)
    requires
        machine_wf(m),
        m.state == State::Ready || m.state == State::Running,
        m.pc < m.code.len(),
        grows_past_base(m.code[m.pc], m.sp, m.base),
    ensures
        step_spec(m).state == State::HaltedFault(
            Fault { kind: FaultKind::StackOverflow, address: m.pc as u32 },
        ),
        step_spec(m).sp == m.sp,
        step_spec(m).mem == m.mem,
{
    reveal(exec_spec);
}

/// A pop from an empty stack faults with a stack underflow and leaves the
/// stack pointer and memory as they were.
pub proof fn lemma_pop_underflow(m: Machine)
    requires
        machine_wf(m),
        m.state == State::Ready || m.state == State::Running,
        m.pc < m.code.len(),
        m.code[m.pc] is POP,
        m.sp == m.mem.len(),
    ensures
        step_spec(m).state == State::HaltedFault(
            Fault { kind: FaultKind::StackUnderflow, address: m.pc as u32 },
        ),
        step_spec(m).sp == m.sp,
        step_spec(m).mem == m.mem,
{
    reveal(exec_spec);
}

/// A call to a negative target suspends the machine after the call; resuming
/// it with `v` goes on at the next instruction with `v` on top of the stack.
pub proof fn lemma_native_call_resume(m: Machine, v: u32)
    requires
        machine_wf(m),
        m.state == State::Ready || m.state == State::Running,
        m.pc < m.code.len(),
        m.code[m.pc] is CALL,
        holds(m, 1),
        top0(m) >= 0x8000_0000,
    ensures
        step_spec(m).state == State::Suspended((0xFFFF_FFFF - top0(m)) as u32),
        step_spec(m).pc == m.pc + 1,
        resume_spec(step_spec(m), v).state == State::Running,
        resume_spec(step_spec(m), v).pc == m.pc + 1,
        resume_spec(step_spec(m), v).sp == m.sp,
        top0(resume_spec(step_spec(m), v)) == v,
        answer_spec(step_spec(m), Some(v)) == resume_spec(step_spec(m), v),
{
    reveal(exec_spec);
    lemma_word_round_trip(m.mem, m.sp, v);
}

/// The interpreter of one program.
#[derive(Debug)]
pub struct Interpreter {
    instructions: Vec<Instruction>,
    program_counter: usize,
    stack_pointer: usize,
    stack_base: usize,
    data: Vec<u8>,
    state: State,
}

impl View for Interpreter {
    type V = Machine;

    closed spec fn view(&self) -> Machine {
        Machine {
            code: self.instructions@,
            pc: self.program_counter as int,
            sp: self.stack_pointer as int,
            base: self.stack_base as int,
            mem: self.data@,
            state: self.state,
        }
    }
}

/// The machine's invariant: the stack pointer lies in the stack region, and
/// addresses and instruction indices fit in a word.
pub open spec fn machine_wf(m: Machine) -> bool {
    &&& 0 <= m.base <= m.sp <= m.mem.len()
    &&& m.mem.len() <= u32::MAX
    &&& m.code.len() < u32::MAX
    &&& 0 <= m.pc <= m.code.len()
    &&& m.state is Suspended ==> m.pc >= 1
}

impl Interpreter {
    pub open spec fn wf(&self) -> bool {
        machine_wf(self@)
    }

    fn read_word(&self, a: usize) -> (r: u32)
        requires
            machine_wf(self@),
            a + 4 <= self@.mem.len(),
        ensures
            r == word_at(self@.mem, a as int),
    {
        self.data[a] as u32 + self.data[a + 1] as u32 * 0x100 + self.data[a + 2] as u32 * 0x1_0000
            + self.data[a + 3] as u32 * 0x100_0000
    }

    fn read(&self, a: usize, w: usize) -> (r: u32)
        requires
            machine_wf(self@),
            a + w <= self@.mem.len(),
            w == 1 || w == 2 || w == 4,
        ensures
            r == load_at(self@.mem, a as int, w as int),
    {
        if w == 1 {
            self.data[a] as u32
        } else if w == 2 {
            self.data[a] as u32 + self.data[a + 1] as u32 * 0x100
        } else {
            self.read_word(a)
        }
    }

    fn write(&mut self, a: usize, w: usize, v: u32)
        requires
            machine_wf(old(self)@),
            a + w <= old(self)@.mem.len(),
            w == 1 || w == 2 || w == 4,
        ensures
            final(self)@ == (Machine { mem: store_at(old(self)@.mem, a as int, w as int, v), ..old(self)@ }),
            machine_wf(final(self)@),
    {
        self.data.set(a, (v % 0x100) as u8);
        if w >= 2 {
            self.data.set(a + 1, (v / 0x100 % 0x100) as u8);
        }
        if w == 4 {
            self.data.set(a + 2, (v / 0x1_0000 % 0x100) as u8);
            self.data.set(a + 3, (v / 0x100_0000) as u8);
        }
    }

    fn fault(&mut self, kind: FaultKind, at: u32)
        ensures
            final(self)@ == fault_at(old(self)@, kind, at),
            machine_wf(old(self)@) ==> machine_wf(final(self)@),
    {
        self.state = State::HaltedFault(Fault { kind, address: at });
    }

    fn push(&mut self, v: u32, at: u32)
        requires
            machine_wf(old(self)@),
        ensures
            final(self)@ == push_spec(old(self)@, v, at),
            machine_wf(final(self)@),
    {
        if self.stack_pointer - self.stack_base < 4 {
            self.fault(FaultKind::StackOverflow, at);
        } else {
            self.stack_pointer = self.stack_pointer - 4;
            self.write(self.stack_pointer, 4, v);
        }
    }

    fn holds(&self, k: usize) -> (r: bool)
        requires
            machine_wf(self@),
            k <= 2,
        ensures
            r == holds(self@, k as int),
    {
        4 * k <= self.data.len() - self.stack_pointer
    }

    fn jump(&mut self, target: u32, at: u32)
        requires
            old(self)@.state == State::Running,
        ensures
            final(self)@ == jump_to(old(self)@, target, at),
            machine_wf(old(self)@) ==> machine_wf(final(self)@),
    {
        if target as usize >= self.instructions.len() {
            self.fault(FaultKind::InvalidJumpTarget, at);
        } else {
            self.program_counter = target as usize;
        }
    }

    fn leave(&mut self, n: u32, at: u32)
        requires
            machine_wf(old(self)@),
            old(self)@.state == State::Running,
        ensures
            final(self)@ == leave_spec(old(self)@, n, at),
            machine_wf(final(self)@),
    {
        let top = self.data.len();
        if n as usize > top - self.stack_pointer {
            self.fault(FaultKind::StackUnderflow, at);
            return;
        }
        let s = self.stack_pointer + n as usize;
        if s == top {
            let status = if self.holds(1) { self.read_word(self.stack_pointer) } else { 0 };
            self.stack_pointer = s;
            self.state = State::HaltedOk(status);
        } else if 4 > top - s {
            self.fault(FaultKind::StackUnderflow, at);
        } else {
            let ra = self.read_word(s);
            self.stack_pointer = s + 4;
            self.jump(ra, at);
        }
    }

    fn call(&mut self, at: u32)
        requires
            machine_wf(old(self)@),
            old(self)@.pc <= u32::MAX,
            old(self)@.pc >= 1,
            old(self)@.state == State::Running,
        ensures
            final(self)@ == call_spec(old(self)@, at),
            machine_wf(final(self)@),
    {
        if !self.holds(1) {
            self.fault(FaultKind::StackUnderflow, at);
            return;
        }
        let t = self.read_word(self.stack_pointer);
        self.stack_pointer = self.stack_pointer + 4;
        if t >= 0x8000_0000 {
            self.state = State::Suspended(0xFFFF_FFFF - t);
        } else if t as usize >= self.instructions.len() {
            self.fault(FaultKind::InvalidJumpTarget, at);
        } else {
            let ret = self.program_counter as u32;
            self.program_counter = t as usize;
            self.push(ret, at);
        }
    }

    fn block_copy(&mut self, n: u32, at: u32)
        requires
            machine_wf(old(self)@),
        ensures
            final(self)@ == exec_spec(old(self)@, Instruction::BLOCK_COPY(n), at),
            machine_wf(final(self)@),
    {
        reveal(exec_spec);
        if !self.holds(2) {
            self.fault(FaultKind::StackUnderflow, at);
            return;
        }
        let src = self.read_word(self.stack_pointer) as usize;
        let dst = self.read_word(self.stack_pointer + 4) as usize;
        let top = self.data.len();
        if src > top || n as usize > top - src || dst > top || n as usize > top - dst {
            self.fault(FaultKind::OutOfBoundsAccess, at);
            return;
        }
        let ghost m = self@;
        let mut buf: Vec<u8> = Vec::new();
        let mut i: usize = 0;
        while i < n as usize
            invariant
                self@ == m,
                machine_wf(m),
                src + n <= m.mem.len(),
                i <= n,
                buf@ == m.mem.subrange(src as int, src + i),
            decreases n - i,
        {
            buf.push(self.data[src + i]);
            assert(buf@ =~= m.mem.subrange(src as int, src + i + 1));
            i = i + 1;
        }
        let mut j: usize = 0;
        while j < n as usize
            invariant
                self@.mem.len() == m.mem.len(),
                self@ == (Machine { mem: self@.mem, ..m }),
                machine_wf(m),
                dst + n <= m.mem.len(),
                src + n <= m.mem.len(),
                buf@.len() == n,
                j <= n,
                buf@ == m.mem.subrange(src as int, src + n),
                forall|k: int|
                    0 <= k < m.mem.len() ==> self@.mem[k] == (if dst <= k < dst + j {
                        m.mem[src + k - dst]
                    } else {
                        m.mem[k]
                    }),
            decreases n - j,
        {
            self.data.set(dst + j, buf[j]);
            j = j + 1;
        }
        self.stack_pointer = self.stack_pointer + 8;
        assert(self@.mem =~= copy_block(m.mem, src as int, dst as int, n as int));
    }

    fn unary(ins: Instruction, a: u32) -> (r: u32)
        ensures
            r == unary_result(ins, a),
    {
        match ins {
            Instruction::SEX8 => if a % 0x100 >= 0x80 { a % 0x100 + 0xFFFF_FF00 } else { a % 0x100 },
            Instruction::SEX16 => if a % 0x1_0000 >= 0x8000 {
                a % 0x1_0000 + 0xFFFF_0000
            } else {
                a % 0x1_0000
            },
            Instruction::NEGI => 0u32.wrapping_sub(a),
            _ => 0xFFFF_FFFF - a,
        }
    }

    fn binary(ins: Instruction, a: u32, b: u32) -> (r: Option<u32>)
        ensures
            r == binary_result(ins, a, b),
    {
        match ins {
            Instruction::ADD => Some(a.wrapping_add(b)),
            Instruction::SUB => Some(a.wrapping_sub(b)),
            Instruction::MULI | Instruction::MULU => Some(a.wrapping_mul(b)),
            Instruction::DIVU => if b == 0 { None } else { Some(a / b) },
            Instruction::MODU => if b == 0 { None } else { Some(a % b) },
            Instruction::DIVI => if b == 0 {
                None
            } else {
                match (a as i32).checked_div(b as i32) {
                    Some(q) => Some(q as u32),
                    None => Some(a),
                }
            },
            Instruction::MODI => if b == 0 {
                None
            } else {
                match (a as i32).checked_rem(b as i32) {
                    Some(q) => Some(q as u32),
                    None => Some(0),
                }
            },
            Instruction::BAND => Some(a & b),
            Instruction::BOR => Some(a | b),
            Instruction::BXOR => Some(a ^ b),
            Instruction::LSH => Some(a.wrapping_shl(b)),
            Instruction::RSHI => Some(((a as i32).wrapping_shr(b)) as u32),
            _ => Some(a.wrapping_shr(b)),
        }
    }

    fn branch(ins: Instruction, a: u32, b: u32) -> (r: bool)
        ensures
            r == branch_taken(ins, a, b),
    {
        match ins {
            Instruction::EQ(_) => a == b,
            Instruction::NE(_) => a != b,
            Instruction::LTI(_) => (a as i32) < (b as i32),
            Instruction::LEI(_) => (a as i32) <= (b as i32),
            Instruction::GTI(_) => (a as i32) > (b as i32),
            Instruction::GEI(_) => (a as i32) >= (b as i32),
            Instruction::LTU(_) => a < b,
            Instruction::LEU(_) => a <= b,
            Instruction::GTU(_) => a > b,
            _ => a >= b,
        }
    }

    /// Carries out `ins`, fetched from `at`, with the program counter already
    /// past it.
    fn execute_instruction(&mut self, ins: Instruction, at: u32)
        requires
            machine_wf(old(self)@),
            old(self)@.pc <= u32::MAX,
            old(self)@.pc >= 1,
            old(self)@.state == State::Running,
        ensures
            final(self)@ == exec_spec(old(self)@, ins, at),
            machine_wf(final(self)@),
            final(self)@.code == old(self)@.code,
    {
        reveal(exec_spec);
        let top = self.data.len();
        match ins {
            Instruction::IGNORE | Instruction::BREAK => {},
            Instruction::ENTER(n) => {
                if (n as usize) > self.stack_pointer - self.stack_base {
                    self.fault(FaultKind::StackOverflow, at);
                } else {
                    self.stack_pointer = self.stack_pointer - n as usize;
                }
            },
            Instruction::LEAVE(n) => self.leave(n, at),
            Instruction::CALL => self.call(at),
            Instruction::PUSH => self.push(0, at),
            Instruction::POP => {
                if !self.holds(1) {
                    self.fault(FaultKind::StackUnderflow, at);
                } else {
                    self.stack_pointer = self.stack_pointer + 4;
                }
            },
            Instruction::CONST(v) => self.push(v, at),
            Instruction::LOCAL(off) => {
                let a = (self.stack_pointer as u32).wrapping_add(off);
                self.push(a, at);
            },
            Instruction::JUMP => {
                if !self.holds(1) {
                    self.fault(FaultKind::StackUnderflow, at);
                } else {
                    let target = self.read_word(self.stack_pointer);
                    self.stack_pointer = self.stack_pointer + 4;
                    self.jump(target, at);
                }
            },
            Instruction::EQ(target) | Instruction::NE(target) | Instruction::LTI(target)
            | Instruction::LEI(target) | Instruction::GTI(target) | Instruction::GEI(target)
            | Instruction::LTU(target) | Instruction::LEU(target) | Instruction::GTU(target)
            | Instruction::GEU(target) => {
                if !self.holds(2) {
                    self.fault(FaultKind::StackUnderflow, at);
                } else {
                    let b = self.read_word(self.stack_pointer);
                    let a = self.read_word(self.stack_pointer + 4);
                    self.stack_pointer = self.stack_pointer + 8;
                    if Self::branch(ins, a, b) {
                        self.jump(target, at);
                    }
                }
            },
            Instruction::LOAD1 | Instruction::LOAD2 | Instruction::LOAD4 => {
                let w: usize = match ins {
                    Instruction::LOAD1 => 1,
                    Instruction::LOAD2 => 2,
                    _ => 4,
                };
                if !self.holds(1) {
                    self.fault(FaultKind::StackUnderflow, at);
                } else {
                    let a = self.read_word(self.stack_pointer) as usize;
                    if a > top || w > top - a {
                        self.fault(FaultKind::OutOfBoundsAccess, at);
                    } else {
                        let v = self.read(a, w);
                        self.write(self.stack_pointer, 4, v);
                    }
                }
            },
            Instruction::STORE1 | Instruction::STORE2 | Instruction::STORE4 => {
                let w: usize = match ins {
                    Instruction::STORE1 => 1,
                    Instruction::STORE2 => 2,
                    _ => 4,
                };
                if !self.holds(2) {
                    self.fault(FaultKind::StackUnderflow, at);
                } else {
                    let v = self.read_word(self.stack_pointer);
                    let a = self.read_word(self.stack_pointer + 4) as usize;
                    if a > top || w > top - a {
                        self.fault(FaultKind::OutOfBoundsAccess, at);
                    } else {
                        self.stack_pointer = self.stack_pointer + 8;
                        self.write(a, w, v);
                    }
                }
            },
            Instruction::ARG(off) => {
                if !self.holds(1) {
                    self.fault(FaultKind::StackUnderflow, at);
                } else if off as usize + 4 > top - (self.stack_pointer + 4) {
                    self.fault(FaultKind::OutOfBoundsAccess, at);
                } else {
                    let v = self.read_word(self.stack_pointer);
                    self.stack_pointer = self.stack_pointer + 4;
                    self.write(self.stack_pointer + off as usize, 4, v);
                }
            },
            Instruction::BLOCK_COPY(n) => self.block_copy(n, at),
            Instruction::SEX8 | Instruction::SEX16 | Instruction::NEGI | Instruction::BCOM => {
                if !self.holds(1) {
                    self.fault(FaultKind::StackUnderflow, at);
                } else {
                    let a = self.read_word(self.stack_pointer);
                    self.write(self.stack_pointer, 4, Self::unary(ins, a));
                }
            },
            Instruction::ADD | Instruction::SUB | Instruction::MULI | Instruction::MULU
            | Instruction::DIVI | Instruction::DIVU | Instruction::MODI | Instruction::MODU
            | Instruction::BAND | Instruction::BOR | Instruction::BXOR | Instruction::LSH
            | Instruction::RSHI | Instruction::RSHU => {
                if !self.holds(2) {
                    self.fault(FaultKind::StackUnderflow, at);
                } else {
                    let b = self.read_word(self.stack_pointer);
                    let a = self.read_word(self.stack_pointer + 4);
                    match Self::binary(ins, a, b) {
                        None => self.fault(FaultKind::DivideByZero, at),
                        Some(r) => {
                            self.stack_pointer = self.stack_pointer + 4;
                            self.write(self.stack_pointer, 4, r);
                        },
                    }
                }
            },
            _ => self.fault(FaultKind::InvalidOpcode, at),
        }
    }

    /// Executes one instruction, unless the machine is halted or suspended,
    /// and returns the state it is left in.
    pub fn step(&mut self) -> (r: State)
        requires
            old(self).wf(),
        ensures
            final(self).wf(),
            final(self)@ == step_spec(old(self)@),
            final(self)@.code == old(self)@.code,
            r == final(self)@.state,
    {
        match self.state {
            State::Ready | State::Running => {},
            _ => return self.state,
        }
        let at = self.program_counter;
        if at >= self.instructions.len() {
            self.fault(FaultKind::InvalidJumpTarget, at as u32);
            return self.state;
        }
        let ins = self.instructions[at];
        self.program_counter = at + 1;
        self.state = State::Running;
        self.execute_instruction(ins, at as u32);
        self.state
    }

    /// Resumes a suspended machine with `value`, the native call's result.
    pub fn resume(&mut self, value: u32) -> (r: State)
        requires
            old(self).wf(),
        ensures
            final(self).wf(),
            final(self)@ == resume_spec(old(self)@, value),
            r == final(self)@.state,
    {
        if let State::Suspended(_) = self.state {
            let at = (self.program_counter - 1) as u32;
            self.state = State::Running;
            self.push(value, at);
        }
        self.state
    }

    /// Hands a host's answer to a suspended native call to the machine.
    pub fn answer(&mut self, reply: Option<u32>) -> (r: State)
        requires
            old(self).wf(),
        ensures
            final(self).wf(),
            final(self)@ == answer_spec(old(self)@, reply),
            r == final(self)@.state,
    {
        if let State::Suspended(_) = self.state {
            match reply {
                Some(v) => {
                    self.resume(v);
                },
                None => {
                    let at = (self.program_counter - 1) as u32;
                    self.fault(FaultKind::UnhandledNativeCall, at);
                },
            }
        }
        self.state
    }

    /// Runs at most `max_steps` instructions, stopping early once the machine
    /// halts or suspends for a native call.
    pub fn run(&mut self, max_steps: u64) -> (r: State)
        requires
            old(self).wf(),
        ensures
            final(self).wf(),
            final(self)@ == run_spec(old(self)@, max_steps as nat),
            r == final(self)@.state,
    {
        let mut left: u64 = max_steps;
        while left > 0
            invariant
                self.wf(),
                run_spec(self@, left as nat) == run_spec(old(self)@, max_steps as nat),
            ensures
                self.wf(),
                run_spec(self@, left as nat) == run_spec(old(self)@, max_steps as nat),
                run_spec(self@, left as nat) == self@,
            decreases left,
        {
            match self.state {
                State::Ready | State::Running => {},
                _ => {
                    assert(run_spec(self@, left as nat) == self@);
                    break;
                },
            }
            self.step();
            left = left - 1;
            proof {
                if left == 0 {
                    assert(run_spec(self@, 0) == self@);
                }
            }
        }
        self.state
    }

    /// Runs at most `max_steps` instructions, answering each native call
    /// through `handler`, until the machine halts or the steps are spent.
    pub fn run_with<H: NativeHandler>(&mut self, handler: &mut H, max_steps: u64) -> (r: State)
        requires
            old(self).wf(),
        ensures
            final(self).wf(),
            final(self)@.code == old(self)@.code,
            r == final(self)@.state,
            exists|replies: Seq<(u32, Option<u32>)>|
                final(self)@ == run_with_spec(old(self)@, replies, max_steps as nat),
            (forall|k: nat|
                k <= max_steps ==> !(#[trigger] run_spec(old(self)@, k).state is Suspended))
                ==> final(self)@ == run_spec(old(self)@, max_steps as nat),
    {
        let ghost start = self@;
        let ghost mut log: Seq<(u32, Option<u32>)> = Seq::empty();
        let mut left: u64 = max_steps;
        while left > 0
            invariant
                self.wf(),
                self@.code == start.code,
                left <= max_steps,
                spends_all(start, log, (max_steps - left) as nat),
                self@ == run_with_spec(start, log, (max_steps - left) as nat),
            ensures
                self.wf(),
                self@.code == start.code,
                left <= max_steps,
                spends_all(start, log, (max_steps - left) as nat),
                self@ == run_with_spec(start, log, (max_steps - left) as nat),
                self@ == run_with_spec(self@, Seq::empty(), left as nat),
            decreases left,
        {
            let ghost k = (max_steps - left) as nat;
            match self.state {
                State::Ready | State::Running => {
                    let ghost before = self@;
                    self.step();
                    proof {
                        assert(run_with_spec(before, Seq::empty(), 1) == step_spec(before));
                        assert(spends_all(step_spec(before), Seq::empty(), 0));
                        assert(spends_all(before, Seq::empty(), 1));
                        lemma_run_with_compose(start, log, k, Seq::empty(), 1);
                        assert(log + Seq::empty() =~= log);
                    }
                },
                State::Suspended(selector) => {
                    let ghost before = self@;
                    let reply = handler.native_call(selector, self);
                    self.answer(reply);
                    proof {
                        let e = seq![(selector, reply)];
                        assert(e.drop_first() =~= Seq::<(u32, Option<u32>)>::empty());
                        assert(run_with_spec(before, e, 1) == answer_spec(before, reply));
                        assert(e[0] == (selector, reply));
                        assert(spends_all(answer_spec(before, reply), e.drop_first(), 0));
                        assert(spends_all(before, e, 1));
                        lemma_run_with_compose(start, log, k, e, 1);
                        assert(log + e =~= log.push((selector, reply)));
                        log = log.push((selector, reply));
                    }
                },
                _ => {
                    assert(run_with_spec(self@, Seq::empty(), left as nat) == self@);
                    break;
                },
            }
            left = left - 1;
            proof {
                if left == 0 {
                    assert(run_with_spec(self@, Seq::empty(), 0) == self@);
                }
            }
        }
        proof {
            let k = (max_steps - left) as nat;
            lemma_run_with_compose(start, log, k, Seq::empty(), left as nat);
            assert(log + Seq::empty() =~= log);
            assert(k + left as nat == max_steps as nat);
            if forall|k: nat|
                k <= max_steps ==> !(#[trigger] run_spec(start, k).state is Suspended) {
                lemma_run_with_no_calls(start, log, max_steps as nat);
            }
        }
        self.state
    }

    /// Where the machine faulted, as `name` or `name+offset` of the nearest
    /// symbol at or below the faulting address; nothing when it has not
    /// faulted or no symbol covers that address.
    pub fn fault_location(&self, symbols: &SymbolMap) -> (r: Option<String>)
        requires
            symbols.wf(),
        ensures
            self@.state is HaltedFault ==> (r matches Some(s) ==> resolve(
                symbols@,
                self@.state->HaltedFault_0.address,
            ) == Some(s@)) && (r is None ==> resolve(
                symbols@,
                self@.state->HaltedFault_0.address,
            ) is None),
            !(self@.state is HaltedFault) ==> r is None,
    {
        match self.state {
            State::HaltedFault(f) => symbols.symbol_name(f.address),
            _ => None,
        }
    }

    pub fn state(&self) -> (r: State)
        ensures
            r == self@.state,
    {
        self.state
    }

    pub fn program_counter(&self) -> (r: usize)
        ensures
            r == self@.pc,
    {
        self.program_counter
    }

    pub fn stack_pointer(&self) -> (r: usize)
        ensures
            r == self@.sp,
    {
        self.stack_pointer
    }

    pub fn stack_base(&self) -> (r: usize)
        ensures
            r == self@.base,
    {
        self.stack_base
    }

    /// The whole memory image, stack included.
    pub fn memory(&self) -> (r: &Vec<u8>)
        ensures
            r@ == self@.mem,
    {
        &self.data
    }

    pub fn instructions(&self) -> (r: &Vec<Instruction>)
        ensures
            r@ == self@.code,
    {
        &self.instructions
    }

    /// Builds the memory image of `program` followed by a zeroed stack of
    /// `stack_size` bytes, with the stack empty and execution at instruction 0.
    pub fn new(program: Program, stack_size: usize) -> (r: Interpreter)
        requires
            program.image_len() + stack_size <= u32::MAX,
            program.instructions@.len() < u32::MAX,
        ensures
            r.wf(),
            r@.code == program.instructions@,
            r@.pc == 0,
            r@.base == program.image_len(),
            r@.sp == program.image_len() + stack_size,
            r@.sp == r@.mem.len(),
            r@.mem == initial_memory(program, stack_size as nat),
            r@.state == State::Ready,
    {
        let Program { instructions, data: words, lit, bss_length } = program;
        let len: usize = words.len() * 4 + lit.len() + bss_length as usize * 4;
        let mut data: Vec<u8> = Vec::with_capacity(len + stack_size);
        let mut i: usize = 0;
        while i < words.len()
            invariant
                i <= words.len(),
                words.len() * 4 <= u32::MAX,
                data@ == word_bytes(words@.take(i as int)),
            decreases words.len() - i,
        {
            let w = words[i];
            data.push((w % 0x100) as u8);
            data.push((w / 0x100 % 0x100) as u8);
            data.push((w / 0x1_0000 % 0x100) as u8);
            data.push((w / 0x100_0000) as u8);
            assert(words@.take(i + 1).drop_last() =~= words@.take(i as int));
            i = i + 1;
        }
        assert(words@.take(i as int) =~= words@);
        proof {
            lemma_word_bytes_len(words@);
        }
        let ghost head = data@;
        let mut j: usize = 0;
        while j < lit.len()
            invariant
                j <= lit.len(),
                head.len() + lit.len() <= u32::MAX,
                data@ == head + lit@.take(j as int),
            decreases lit.len() - j,
        {
            data.push(lit[j]);
            assert(lit@.take(j + 1) =~= lit@.take(j as int).push(lit[j as int]));
            j = j + 1;
        }
        assert(lit@.take(j as int) =~= lit@);
        let ghost head2 = data@;
        let zeros: usize = bss_length as usize * 4 + stack_size;
        let mut k: usize = 0;
        while k < zeros
            invariant
                k <= zeros,
                head2.len() + zeros <= u32::MAX,
                data@ == head2 + Seq::new(k as nat, |i: int| 0u8),
            decreases zeros - k,
        {
            data.push(0);
            assert(data@ =~= head2 + Seq::new((k + 1) as nat, |i: int| 0u8));
            k = k + 1;
        }
        Interpreter {
            instructions,
            program_counter: 0,
            stack_pointer: len + stack_size,
            stack_base: len,
            data,
            state: State::Ready,
        }
    }
}

} // verus!
