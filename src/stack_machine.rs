use crate::debug_info::DebugInfo;
use crate::instruction::{Instruction, Value};
use crate::text::{chars_of, split_whitespace, split_ws};
use vstd::arithmetic::div_mod::{lemma_basic_div, lemma_div_is_ordered_by_denominator};
use vstd::prelude::*;

verus! {

/// What the machine writes to its output sink.
#[derive(Clone, Copy, Debug, PartialEq, Eq, Structural)]
pub enum Output {
    /// `PRINTOUT`: a value, written in decimal on a line of its own.
    Number(Value),
    /// `PRINTSTR`: one character, the low byte of a popped value.
    Char(u8),
}

/// Why execution stopped before an `EXIT`.
#[derive(Clone, Copy, Debug, PartialEq, Eq, Structural)]
pub enum Fault {
    /// The instruction popped from an empty stack.
    StackUnderflow(Instruction),
    /// `DIV` with a zero divisor.
    DivisionByZero,
    /// The result of the arithmetic instruction does not fit in a `Value`.
    Overflow(Instruction),
    /// The instruction pointer left the program while the machine was running.
    NoInstructionLeft,
    /// The run was refused at a breakpoint.
    Aborted,
}

/// A fault and the address of the instruction at which it happened.
#[derive(Clone, Copy, Debug, PartialEq, Eq, Structural)]
pub struct ExecError {
    pub addr: usize,
    pub fault: Fault,
}

pub type ExecResult<T> = Result<T, ExecError>;

/// The exit code that a fault leaves behind.
pub const FAULT_EXIT_CODE: i32 = 255;

/// Where a call of `run` stopped without a fault.
#[derive(Clone, Copy, Debug, PartialEq, Eq, Structural)]
pub enum RunStatus {
    /// `EXIT` ran, with this exit code.
    Exited(i32),
    /// The next instruction is at a breakpoint and waits for confirmation.
    Breakpoint,
    /// The step budget was used up; the machine is still running.
    Suspended,
}

/// The state of the machine: instruction pointer, operand stack (top last)
/// and exit code, set once the machine has halted.
pub ghost struct Machine {
    pub ip: usize,
    pub stack: Seq<Value>,
    pub exited: Option<i32>,
}

/// The outcome of evaluating one instruction.
pub ghost struct Step {
    pub machine: Machine,
    pub out: Seq<Output>,
    pub fault: Option<Fault>,
}

/// The outcome of a bounded run.
pub ghost struct Run {
    pub machine: Machine,
    pub out: Seq<Output>,
    pub status: Result<RunStatus, ExecError>,
}

pub open spec fn abs(a: int) -> int {
    if a < 0 {
        -a
    } else {
        a
    }
}

/// Integer division rounding toward zero.
pub open spec fn trunc_div(a: int, b: int) -> int {
    if (a < 0) == (b < 0) {
        abs(a) / abs(b)
    } else {
        -(abs(a) / abs(b))
    }
}

/// The exact result of an arithmetic instruction, with `a` the top of the
/// stack and `b` the value beneath it.
pub open spec fn arith(op: Instruction, a: int, b: int) -> int {
    match op {
        Instruction::Add => a + b,
        Instruction::Sub => a - b,
        Instruction::Mul => a * b,
        _ => trunc_div(a, b),
    }
}

pub open spec fn is_arith(op: Instruction) -> bool {
    op is Add || op is Sub || op is Mul || op is Div
}

pub open spec fn fits(v: int) -> bool {
    i64::MIN <= v <= i64::MAX
}

/// Carry on with the next instruction.
pub open spec fn advance(m: Machine, stack: Seq<Value>, out: Seq<Output>) -> Step {
    Step {
        machine: Machine { ip: (m.ip + 1) as usize, stack, exited: m.exited },
        out,
        fault: None,
    }
}

/// Carry on at `target`.
pub open spec fn jump(m: Machine, target: Value, stack: Seq<Value>) -> Step {
    Step { machine: Machine { ip: target as usize, stack, exited: m.exited }, out: seq![], fault: None }
}

/// Halt on a fault at the current address.
pub open spec fn fail(m: Machine, stack: Seq<Value>, out: Seq<Output>, f: Fault) -> Step {
    Step {
        machine: Machine { ip: m.ip, stack, exited: Some(FAULT_EXIT_CODE) },
        out,
        fault: Some(f),
    }
}

/// `PRINTSTR` on the stack `s`: the characters popped before the first zero
/// from the top, and the stack beneath that zero, if there is one.
pub open spec fn print_str(s: Seq<Value>) -> (Seq<Output>, Option<Seq<Value>>)
    decreases s.len(),
{
    if s.len() == 0 {
        (seq![], None)
    } else if s.last() == 0 {
        (seq![], Some(s.drop_last()))
    } else {
        let (o, rest) = print_str(s.drop_last());
        (seq![Output::Char(s.last() as u8)] + o, rest)
    }
}

/// Evaluates `i` at the address `m.ip`.
pub open spec fn exec_instruction(m: Machine, i: Instruction) -> Step {
    let s = m.stack;
    let n = s.len();
    let under = fail(m, seq![], seq![], Fault::StackUnderflow(i));
    match i {
        Instruction::Push(v) => advance(m, s.push(v), seq![]),
        Instruction::Pop => if n < 1 {
            under
        } else {
            advance(m, s.drop_last(), seq![])
        },
        Instruction::Dup => if n < 1 {
            under
        } else {
            advance(m, s.push(s.last()), seq![])
        },
        Instruction::Swap => if n < 2 {
            under
        } else {
            advance(m, s.subrange(0, n - 2).push(s[n - 1]).push(s[n - 2]), seq![])
        },
        Instruction::Jz => if n < 2 {
            under
        } else if s[n - 2] == 0 {
            jump(m, s[n - 1], s.subrange(0, n - 2))
        } else {
            advance(m, s.subrange(0, n - 2), seq![])
        },
        Instruction::Jnz => if n < 2 {
            under
        } else if s[n - 2] != 0 {
            jump(m, s[n - 1], s.subrange(0, n - 2))
        } else {
            advance(m, s.subrange(0, n - 2), seq![])
        },
        Instruction::Jmp => if n < 1 {
            under
        } else {
            jump(m, s.last(), s.drop_last())
        },
        Instruction::Call => if n < 1 {
            under
        } else {
            jump(m, s.last(), s.drop_last().push((m.ip + 1) as Value))
        },
        Instruction::Add | Instruction::Sub | Instruction::Mul | Instruction::Div => if n < 2 {
            under
        } else {
            let rest = s.subrange(0, n - 2);
            if i is Div && s[n - 2] == 0 {
                fail(m, rest, seq![], Fault::DivisionByZero)
            } else if !fits(arith(i, s[n - 1] as int, s[n - 2] as int)) {
                fail(m, rest, seq![], Fault::Overflow(i))
            } else {
                advance(m, rest.push(arith(i, s[n - 1] as int, s[n - 2] as int) as Value), seq![])
            }
        },
        Instruction::Exit => Step {
            machine: Machine {
                ip: (m.ip + 1) as usize,
                stack: if n < 1 {
                    s
                } else {
                    s.drop_last()
                },
                exited: Some(
                    if n < 1 {
                        0
                    } else {
                        s.last() as i32
                    },
                ),
            },
            out: seq![],
            fault: None,
        },
        Instruction::Printout => if n < 1 {
            under
        } else {
            advance(m, s.drop_last(), seq![Output::Number(s.last())])
        },
        Instruction::Printstr => {
            let (o, rest) = print_str(s);
            match rest {
                None => fail(m, seq![], o, Fault::StackUnderflow(i)),
                Some(r) => advance(m, r, o),
            }
        },
    }
}

/// One step of the machine on the program `prog`. A halted machine stays as
/// it is; a running one whose pointer is outside the program faults.
pub open spec fn eval_spec(m: Machine, prog: Seq<Instruction>) -> Step {
    if m.exited is Some {
        Step { machine: m, out: seq![], fault: None }
    } else if m.ip >= prog.len() {
        fail(m, m.stack, seq![], Fault::NoInstructionLeft)
    } else {
        exec_instruction(m, prog[m.ip as int])
    }
}

/// The addresses at which a run waits for confirmation: the breakpoints,
/// when the debug information is verbose, and none otherwise.
pub open spec fn stops(d: DebugInfo) -> Set<i64> {
    if d.spec_verbose() {
        d.spec_breakpoints()
    } else {
        Set::empty()
    }
}

/// Runs `prog` from `m` for at most `fuel` steps.
pub open spec fn run_spec(m: Machine, prog: Seq<Instruction>, stops: Set<i64>, fuel: nat) -> Run
    decreases fuel,
{
    if m.exited is Some {
        Run { machine: m, out: seq![], status: Ok(RunStatus::Exited(m.exited->0)) }
    } else if m.ip >= prog.len() {
        Run {
            machine: Machine { exited: Some(FAULT_EXIT_CODE), ..m },
            out: seq![],
            status: Err(ExecError { addr: m.ip, fault: Fault::NoInstructionLeft }),
        }
    } else if fuel == 0 {
        Run { machine: m, out: seq![], status: Ok(RunStatus::Suspended) }
    } else if stops.contains(m.ip as i64) {
        Run { machine: m, out: seq![], status: Ok(RunStatus::Breakpoint) }
    } else {
        let st = eval_spec(m, prog);
        match st.fault {
            Some(f) => Run {
                machine: st.machine,
                out: st.out,
                status: Err(ExecError { addr: m.ip, fault: f }),
            },
            None => {
                let rest = run_spec(st.machine, prog, stops, (fuel - 1) as nat);
                Run { machine: rest.machine, out: st.out + rest.out, status: rest.status }
            },
        }
    }
}

/// How a reply typed at a breakpoint reads, whatever space surrounds it and
/// whatever the case of its letter: nothing or `y` goes on, `n` refuses, and
/// anything else asks again.
pub open spec fn breakpoint_reply(reply: Seq<char>) -> Option<bool> {
    let words = split_ws(reply);
    if words.len() == 0 {
        Some(true)
    } else if words.len() == 1 && (words[0] == seq!['y'] || words[0] == seq!['Y']) {
        Some(true)
    } else if words.len() == 1 && (words[0] == seq!['n'] || words[0] == seq!['N']) {
        Some(false)
    } else {
        None
    }
}

fn read_reply(reply: &str) -> (r: Option<bool>)
    ensures
        r == breakpoint_reply(reply@),
{
    let chars = chars_of(reply);
    let words = split_whitespace(chars.as_slice());
    let ghost views = words@.map_values(|w: Vec<char>| w@);
    assert(views.len() == words@.len());
    if words.len() == 0 {
        return Some(true);
    }
    assert(views[0] == words@[0]@);
    if words.len() == 1 && words[0].len() == 1 {
        let c = words[0][0];
        if c == 'y' || c == 'Y' {
            assert(views[0] =~= seq![c]);
            return Some(true);
        }
        if c == 'n' || c == 'N' {
            assert(views[0] =~= seq![c]);
            return Some(false);
        }
        assert(views[0] != seq!['y'] && views[0] != seq!['Y'] && views[0] != seq!['n']
            && views[0] != seq!['N']) by {
            assert(views[0][0] == c);
        }
    }
    None
}

/// A running machine at a `CALL` carries on at the address it pops and
/// pushes the address after the `CALL`; at a later `JMP` that pops that
/// value, the machine carries on at the instruction right after the `CALL`.
pub proof fn law_call_then_jmp_returns(m: Machine, prog: Seq<Instruction>, later: Machine)
    requires
        prog.len() <= i64::MAX,
        prog.len() <= usize::MAX,
        m.exited is None,
        m.ip < prog.len(),
        prog[m.ip as int] == Instruction::Call,
        m.stack.len() >= 1,
        later.exited is None,
        later.ip < prog.len(),
        prog[later.ip as int] == Instruction::Jmp,
        later.stack.len() >= 1,
        later.stack.last() == eval_spec(m, prog).machine.stack.last(),
    ensures
        eval_spec(m, prog).fault is None,
        eval_spec(m, prog).machine.ip == m.stack.last() as usize,
        eval_spec(m, prog).machine.stack == m.stack.drop_last().push((m.ip + 1) as Value),
        eval_spec(later, prog).fault is None,
        eval_spec(later, prog).machine.ip == m.ip + 1,
        eval_spec(later, prog).machine.stack == later.stack.drop_last(),
{
}

/// The values `cs`, last first, as a string lies on the stack.
pub open spec fn reversed(cs: Seq<Value>) -> Seq<Value> {
    Seq::new(cs.len(), |k: int| cs[cs.len() - 1 - k])
}

proof fn lemma_print_str_string(s: Seq<Value>, cs: Seq<Value>)
    requires
        forall|k: int| 0 <= k < cs.len() ==> cs[k] != 0,
    ensures
        print_str(s.push(0) + reversed(cs)) == (
            cs.map_values(|v: Value| Output::Char(v as u8)),
            Some(s),
        ),
    decreases cs.len(),
{
    let st = s.push(0) + reversed(cs);
    if cs.len() == 0 {
        assert(st =~= s.push(0));
        assert(st.drop_last() =~= s);
        assert(cs.map_values(|v: Value| Output::Char(v as u8)) =~= Seq::<Output>::empty());
    } else {
        let rest = cs.drop_first();
        lemma_print_str_string(s, rest);
        assert(st.drop_last() =~= s.push(0) + reversed(rest));
        assert(st.last() == cs[0]);
        assert(cs.map_values(|v: Value| Output::Char(v as u8)) =~= seq![Output::Char(cs[0] as u8)]
            + rest.map_values(|v: Value| Output::Char(v as u8)));
    }
}

/// `PRINTSTR` on a stack that holds `s`, a zero, then the non-zero values
/// `cs` last first (as `@PushStr` leaves them) writes `cs` in order, pops
/// the zero, and leaves `s` as it was.
pub proof fn law_printstr_restores_stack(m: Machine, prog: Seq<Instruction>, s: Seq<Value>, cs: Seq<Value>)
    requires
        prog.len() <= usize::MAX,
        m.exited is None,
        m.ip < prog.len(),
        prog[m.ip as int] == Instruction::Printstr,
        forall|k: int| 0 <= k < cs.len() ==> cs[k] != 0,
        m.stack == s.push(0) + reversed(cs),
    ensures
        eval_spec(m, prog).fault is None,
        eval_spec(m, prog).out == cs.map_values(|v: Value| Output::Char(v as u8)),
        eval_spec(m, prog).machine.stack == s,
        eval_spec(m, prog).machine.ip == m.ip + 1,
{
    lemma_print_str_string(s, cs);
}

/// `DIV` with a zero beneath the top of the stack is a fault at its own
/// address, and the machine halts with the fault's exit code.
pub proof fn law_division_by_zero_faults(m: Machine, prog: Seq<Instruction>)
    requires
        m.exited is None,
        m.ip < prog.len(),
        prog[m.ip as int] == Instruction::Div,
        m.stack.len() >= 2,
        m.stack[m.stack.len() - 2] == 0,
    ensures
        eval_spec(m, prog).fault == Some(Fault::DivisionByZero),
        eval_spec(m, prog).machine.exited == Some(FAULT_EXIT_CODE),
        eval_spec(m, prog).machine.ip == m.ip,
{
}

/// The characters that a stack listing shows beside a value: ASCII letters,
/// digits and most ASCII punctuation.
pub open spec fn printable(ch: char) -> bool {
    ||| '0' <= ch <= '9'
    ||| 'a' <= ch <= 'z'
    ||| 'A' <= ch <= 'Z'
    ||| '!' <= ch <= '/'
    ||| ':' <= ch <= '@'
    ||| ch == '[' || ch == '\\' || ch == ']' || ch == '^' || ch == '`'
    ||| '{' <= ch <= '}'
}

pub fn is_printable(ch: char) -> (r: bool)
    ensures
        r == printable(ch),
{
    ('0' <= ch && ch <= '9') || ('a' <= ch && ch <= 'z') || ('A' <= ch && ch <= 'Z') || ('!' <= ch
        && ch <= '/') || (':' <= ch && ch <= '@') || ch == '[' || ch == '\\' || ch == ']' || ch == '^'
        || ch == '`' || ('{' <= ch && ch <= '}')
}

pub struct StackMachine {
    instruction_ptr: usize,
    stack: Vec<Value>,
    exited: Option<i32>,
    debug_info: DebugInfo,
}

impl View for StackMachine {
    type V = Machine;

    closed spec fn view(&self) -> Machine {
        Machine { ip: self.instruction_ptr, stack: self.stack@, exited: self.exited }
    }
}

impl StackMachine {
    pub closed spec fn spec_debug(&self) -> DebugInfo {
        self.debug_info
    }

    /// A running machine at address 0 with an empty stack.
    pub fn new(debug_info: DebugInfo) -> (r: Self)
        ensures
            r@ == (Machine { ip: 0, stack: seq![], exited: None }),
            r.spec_debug() == debug_info,
    {
        StackMachine { instruction_ptr: 0, stack: Vec::new(), exited: None, debug_info }
    }

    pub fn instruction_ptr(&self) -> (r: usize)
        ensures
            r == self@.ip,
    {
        self.instruction_ptr
    }

    pub fn stack(&self) -> (r: &Vec<Value>)
        ensures
            r@ == self@.stack,
    {
        &self.stack
    }

    pub fn exit_code(&self) -> (r: Option<i32>)
        ensures
            r == self@.exited,
    {
        self.exited
    }

    pub fn debug_info(&self) -> (r: &DebugInfo)
        ensures
            *r == self.spec_debug(),
    {
        &self.debug_info
    }

    /// Halts the machine on `fault` at the current address.
    fn panic(&mut self, fault: Fault) -> (r: ExecError)
        ensures
            r == (ExecError { addr: old(self)@.ip, fault }),
            final(self)@ == (Machine { exited: Some(FAULT_EXIT_CODE), ..old(self)@ }),
            final(self).spec_debug() == old(self).spec_debug(),
    {
        self.exited = Some(FAULT_EXIT_CODE);
        ExecError { addr: self.instruction_ptr, fault }
    }

    /// Pops the top of the stack for the instruction `op`; an empty stack is
    /// a fault.
    fn pop_stack(&mut self, op: Instruction) -> (r: ExecResult<Value>)
        ensures
            old(self)@.stack.len() == 0 ==> {
                &&& r == Err::<Value, ExecError>(
                    ExecError { addr: old(self)@.ip, fault: Fault::StackUnderflow(op) },
                )
                &&& final(self)@ == (Machine {
                    ip: old(self)@.ip,
                    stack: seq![],
                    exited: Some(FAULT_EXIT_CODE),
                })
            },
            old(self)@.stack.len() > 0 ==> {
                &&& r == Ok::<Value, ExecError>(old(self)@.stack.last())
                &&& final(self)@ == (Machine { stack: old(self)@.stack.drop_last(), ..old(self)@ })
            },
            final(self).spec_debug() == old(self).spec_debug(),
    {
        match self.stack.pop() {
            Some(v) => Ok(v),
            None => {
                assert(self.stack@ =~= seq![]);
                Err(self.panic(Fault::StackUnderflow(op)))
            },
        }
    }

    /// The exact quotient `a / b` rounded toward zero, when it fits.
    fn divide(a: Value, b: Value) -> (r: Value)
        requires
            b != 0,
            !(a == i64::MIN && b == -1),
        ensures
            r == trunc_div(a as int, b as int),
    {
        if b > 0 {
            let q = a / b;
            assert(q == trunc_div(a as int, b as int)) by {
                if a < 0 {
                    assert(q == -((-(a as int)) / (b as int)));
                } else {
                    assert(q == (a as int) / (b as int));
                }
            }
            q
        } else if b == i64::MIN {
            if a == i64::MIN {
                1
            } else {
                proof {
                    lemma_basic_div(abs(a as int), abs(b as int));
                }
                0
            }
        } else {
            let q = a / (-b);
            assert(q == trunc_div(a as int, -b as int)) by {
                if a < 0 {
                    assert(q == -((-(a as int)) / (-(b as int))));
                } else {
                    assert(q == (a as int) / (-(b as int)));
                }
            }
            proof {
                let x = abs(a as int);
                if b < -1 {
                    lemma_div_is_ordered_by_denominator(x, 2, -b);
                }
                assert(q == trunc_div(a as int, -b as int));
            }
            -q
        }
    }

    /// Evaluates an arithmetic instruction.
    fn bin_op(&mut self, op: Instruction) -> (r: ExecResult<()>)
        requires
            is_arith(op),
            old(self)@.ip < usize::MAX,
        ensures
            ({
                let st = exec_instruction(old(self)@, op);
                &&& final(self)@ == st.machine
                &&& st.out == Seq::<Output>::empty()
                &&& match st.fault {
                    None => r == Ok::<(), ExecError>(()),
                    Some(f) => r == Err::<(), ExecError>(ExecError { addr: old(self)@.ip, fault: f }),
                }
            }),
            final(self).spec_debug() == old(self).spec_debug(),
    {
        let ghost s = self.stack@;
        let a = self.pop_stack(op)?;
        let b = self.pop_stack(op)?;
        assert(self.stack@ =~= s.subrange(0, s.len() - 2));
        let result = match op {
            Instruction::Add => a.checked_add(b),
            Instruction::Sub => a.checked_sub(b),
            Instruction::Mul => a.checked_mul(b),
            _ => {
                if b == 0 {
                    return Err(self.panic(Fault::DivisionByZero));
                }
                if a == i64::MIN && b == -1 {
                    assert(trunc_div(a as int, b as int) == i64::MAX + 1) by {
                        assert(abs(a as int) == 0x8000_0000_0000_0000);
                        assert(abs(b as int) == 1);
                        assert(0x8000_0000_0000_0000int / 1int == 0x8000_0000_0000_0000);
                    }
                    None
                } else {
                    Some(Self::divide(a, b))
                }
            },
        };
        match result {
            Some(v) => {
                self.stack.push(v);
                self.instruction_ptr += 1;
                Ok(())
            },
            None => Err(self.panic(Fault::Overflow(op))),
        }
    }

    /// Evaluates the instruction at the pointer and appends what it writes
    /// to `output`.
    pub fn eval(&mut self, instructions: &[Instruction], output: &mut Vec<Output>) -> (r:
        ExecResult<()>)
        requires
            instructions@.len() <= i64::MAX,
        ensures
            ({
                let st = eval_spec(old(self)@, instructions@);
                &&& final(self)@ == st.machine
                &&& final(output)@ == old(output)@ + st.out
                &&& match st.fault {
                    None => r == Ok::<(), ExecError>(()),
                    Some(f) => r == Err::<(), ExecError>(ExecError { addr: old(self)@.ip, fault: f }),
                }
            }),
            final(self).spec_debug() == old(self).spec_debug(),
    {
        if self.exited.is_some() {
            assert(output@ =~= output@ + Seq::<Output>::empty());
            return Ok(());
        }
        if self.instruction_ptr >= instructions.len() {
            assert(output@ =~= output@ + Seq::<Output>::empty());
            return Err(self.panic(Fault::NoInstructionLeft));
        }
        let instruction = instructions[self.instruction_ptr];
        let ghost m = self@;
        let ghost out0 = output@;
        match instruction {
            Instruction::Push(arg) => {
                self.stack.push(arg);
                self.instruction_ptr += 1;
            },
            Instruction::Pop => {
                let _ = self.pop_stack(instruction)?;
                self.instruction_ptr += 1;
            },
            Instruction::Add | Instruction::Sub | Instruction::Mul | Instruction::Div => {
                self.bin_op(instruction)?;
            },
            Instruction::Dup => {
                let value = self.pop_stack(instruction)?;
                self.stack.push(value);
                self.stack.push(value);
                assert(self.stack@ =~= m.stack.push(m.stack.last()));
                self.instruction_ptr += 1;
            },
            Instruction::Swap => {
                let a = self.pop_stack(instruction)?;
                let b = self.pop_stack(instruction)?;
                self.stack.push(a);
                self.stack.push(b);
                let ghost n = m.stack.len();
                assert(self.stack@ =~= m.stack.subrange(0, n - 2).push(m.stack[n - 1]).push(
                    m.stack[n - 2],
                ));
                self.instruction_ptr += 1;
            },
            Instruction::Jz => {
                let addr = self.pop_stack(instruction)?;
                let value = self.pop_stack(instruction)?;
                assert(self.stack@ =~= m.stack.subrange(0, m.stack.len() - 2));
                if value == 0 {
                    self.instruction_ptr = addr as usize;
                } else {
                    self.instruction_ptr += 1;
                }
            },
            Instruction::Jnz => {
                let addr = self.pop_stack(instruction)?;
                let value = self.pop_stack(instruction)?;
                assert(self.stack@ =~= m.stack.subrange(0, m.stack.len() - 2));
                if value != 0 {
                    self.instruction_ptr = addr as usize;
                } else {
                    self.instruction_ptr += 1;
                }
            },
            Instruction::Jmp => {
                let addr = self.pop_stack(instruction)?;
                self.instruction_ptr = addr as usize;
            },
            Instruction::Call => {
                let addr = self.pop_stack(instruction)?;
                self.stack.push(self.instruction_ptr as Value + 1);
                self.instruction_ptr = addr as usize;
            },
            Instruction::Printout => {
                let value = self.pop_stack(instruction)?;
                output.push(Output::Number(value));
                self.instruction_ptr += 1;
            },
            Instruction::Printstr => {
                loop
                    invariant_except_break
                        print_str(m.stack).1 == print_str(self@.stack).1,
                        print_str(m.stack).0 == output@.subrange(out0.len() as int, output@.len() as int)
                            + print_str(self@.stack).0,
                    invariant
                        self@.ip == m.ip,
                        self@.exited == m.exited,
                        m == old(self)@,
                        out0 == old(output)@,
                        m.ip < instructions@.len(),
                        instructions@[m.ip as int] == instruction,
                        m.exited is None,
                        self.spec_debug() == old(self).spec_debug(),
                        instruction == Instruction::Printstr,
                        output@.subrange(0, out0.len() as int) == out0,
                        out0.len() <= output@.len(),
                    ensures
                        self@.ip == m.ip,
                        self@.exited == m.exited,
                        self.spec_debug() == old(self).spec_debug(),
                        print_str(m.stack).1 == Some(self@.stack),
                        output@ == out0 + print_str(m.stack).0,
                    decreases self@.stack.len(),
                {
                    let ghost before = self@.stack;
                    let ghost out_before = output@;
                    match self.pop_stack(instruction) {
                        Ok(ch) => {
                            assert(print_str(before) == if ch == 0 {
                                (Seq::<Output>::empty(), Some(self@.stack))
                            } else {
                                (seq![Output::Char(ch as u8)] + print_str(self@.stack).0,
                                print_str(self@.stack).1)
                            });
                            if ch == 0 {
                                assert(output@ =~= out0 + output@.subrange(
                                    out0.len() as int,
                                    output@.len() as int,
                                ));
                                break;
                            }
                            output.push(Output::Char(ch as u8));
                            proof {
                                assert(output@.subrange(out0.len() as int, output@.len() as int)
                                    =~= out_before.subrange(out0.len() as int, out_before.len() as int)
                                    + seq![Output::Char(ch as u8)]);
                                assert(output@.subrange(0, out0.len() as int) =~= out_before.subrange(
                                    0,
                                    out0.len() as int,
                                ));
                            }
                        },
                        Err(e) => {
                            assert(print_str(before) == (Seq::<Output>::empty(), None::<Seq<Value>>));
                            assert(output@ =~= out0 + output@.subrange(
                                out0.len() as int,
                                output@.len() as int,
                            ));
                            return Err(e);
                        },
                    }
                }
                self.instruction_ptr += 1;
            },
            Instruction::Exit => {
                let exit_code = self.stack.pop();
                self.exited = Some(
                    match exit_code {
                        Some(v) => v as i32,
                        None => 0,
                    },
                );
                self.instruction_ptr += 1;
            },
        }
        assert(output@ =~= out0 + eval_spec(m, instructions@).out);
        Ok(())
    }

    /// Runs the program until it exits or faults, until the next instruction
    /// is at a breakpoint that waits for confirmation, or until `max_steps`
    /// instructions have run. After a confirmed breakpoint, `eval` runs the
    /// instruction there and a new call of `run` carries on.
    pub fn run(&mut self, instructions: &[Instruction], output: &mut Vec<Output>, max_steps: u64) -> (r:
        ExecResult<RunStatus>)
        requires
            instructions@.len() <= i64::MAX,
        ensures
            ({
                let res = run_spec(
                    old(self)@,
                    instructions@,
                    stops(old(self).spec_debug()),
                    max_steps as nat,
                );
                &&& final(self)@ == res.machine
                &&& final(output)@ == old(output)@ + res.out
                &&& r == res.status
            }),
            final(self).spec_debug() == old(self).spec_debug(),
    {
        let ghost start = self@;
        let ghost stop_at = stops(self.spec_debug());
        let ghost mut emitted: Seq<Output> = seq![];
        let mut steps: u64 = 0;
        loop
            invariant
                steps <= max_steps,
                start == old(self)@,
                instructions@.len() <= i64::MAX,
                self.spec_debug() == old(self).spec_debug(),
                stop_at == stops(self.spec_debug()),
                output@ == old(output)@ + emitted,
                ({
                    let whole = run_spec(start, instructions@, stop_at, max_steps as nat);
                    let rest = run_spec(self@, instructions@, stop_at, (max_steps - steps) as nat);
                    &&& whole.machine == rest.machine
                    &&& whole.status == rest.status
                    &&& whole.out == emitted + rest.out
                }),
            decreases max_steps - steps,
        {
            if let Some(code) = self.exited {
                assert(emitted =~= emitted + Seq::<Output>::empty());
                return Ok(RunStatus::Exited(code));
            }
            if self.instruction_ptr >= instructions.len() {
                assert(emitted =~= emitted + Seq::<Output>::empty());
                return Err(self.panic(Fault::NoInstructionLeft));
            }
            if steps == max_steps {
                assert(emitted =~= emitted + Seq::<Output>::empty());
                return Ok(RunStatus::Suspended);
            }
            if self.debug_info.verbose() && self.debug_info.breakpoint_at(
                self.instruction_ptr as i64,
            ) {
                assert(emitted =~= emitted + Seq::<Output>::empty());
                return Ok(RunStatus::Breakpoint);
            }
            let ghost before = self@;
            let ghost out_before = output@;
            let result = self.eval(instructions, output);
            proof {
                let st = eval_spec(before, instructions@);
                assert(output@ =~= old(output)@ + (emitted + st.out));
                emitted = emitted + st.out;
                assert(emitted =~= emitted + Seq::<Output>::empty());
            }
            if let Err(e) = result {
                return Err(e);
            }
            steps += 1;
            proof {
                let st = eval_spec(before, instructions@);
                let rest = run_spec(self@, instructions@, stop_at, (max_steps - steps) as nat);
                assert(emitted + rest.out =~= (emitted.subrange(0, emitted.len() - st.out.len())
                    + st.out) + rest.out);
            }
        }
    }

    /// Decides on the reply typed at a breakpoint: `None` to ask again,
    /// `Some(Ok(()))` to go on, and `Some(Err(..))` after a refusal, which
    /// halts the machine on a fault.
    pub fn handle_breakpoint(&mut self, reply: &str) -> (r: Option<ExecResult<()>>)
        ensures
            r == (match breakpoint_reply(reply@) {
                None => None,
                Some(true) => Some(Ok::<(), ExecError>(())),
                Some(false) => Some(
                    Err::<(), ExecError>(ExecError { addr: old(self)@.ip, fault: Fault::Aborted }),
                ),
            }),
            breakpoint_reply(reply@) == Some(false) ==> final(self)@ == (Machine {
                exited: Some(FAULT_EXIT_CODE),
                ..old(self)@
            }),
            breakpoint_reply(reply@) != Some(false) ==> final(self)@ == old(self)@,
            final(self).spec_debug() == old(self).spec_debug(),
    {
        match read_reply(reply) {
            None => None,
            Some(true) => Some(Ok(())),
            Some(false) => Some(Err(self.panic(Fault::Aborted))),
        }
    }
}

} // verus!
