use spvm::assembler::AsmParser;
use spvm::debug_info::DebugInfo;
use spvm::instruction::Instruction;
use spvm::stack_machine::{
    is_printable, ExecError, Fault, Output, RunStatus, StackMachine, FAULT_EXIT_CODE,
};

fn run_program(program: &[Instruction]) -> (Result<RunStatus, ExecError>, Vec<Output>, StackMachine) {
    let mut machine = StackMachine::new(DebugInfo::new());
    let mut out = Vec::new();
    let r = machine.run(program, &mut out, 10_000);
    (r, out, machine)
}

fn run_source(src: &str) -> (Result<RunStatus, ExecError>, Vec<Output>, StackMachine) {
    let program = AsmParser::new("t.asm".to_string()).assemble(src).unwrap();
    run_program(&program)
}

#[test]
fn push_add_dup_mul_prints_81() {
    let (r, out, _) = run_source("PUSH 4\nPUSH 5\nADD\nDUP\nMUL\nPRINTOUT\nEXIT\n");
    assert_eq!(out, vec![Output::Number(81)]);
    assert_eq!(r, Ok(RunStatus::Exited(0)));
}

#[test]
fn pop_on_empty_stack_faults_at_zero() {
    let (r, out, m) = run_source("POP\n");
    let e = r.unwrap_err();
    assert_eq!(e.addr, 0);
    assert_eq!(e.fault, Fault::StackUnderflow(Instruction::Pop));
    match e.fault {
        Fault::StackUnderflow(i) => assert_eq!(i.mnemonic(), "POP"),
        _ => unreachable!(),
    }
    assert!(out.is_empty());
    assert_eq!(m.exit_code(), Some(FAULT_EXIT_CODE));
}

#[test]
fn forward_jump_skips_the_print() {
    let program = AsmParser::new("t.asm".to_string())
        .assemble("PUSH end\nJMP\nPUSH 99\nPRINTOUT\nend:\nEXIT\n")
        .unwrap();
    assert_eq!(program[0], Instruction::Push(4));
    assert_eq!(program[4], Instruction::Exit);
    let (r, out, _) = run_program(&program);
    assert!(out.is_empty());
    assert_eq!(r, Ok(RunStatus::Exited(0)));
}

#[test]
fn forward_jump_by_literal_address() {
    let (r, out, _) = run_source("PUSH 4\nJMP\nPUSH 99\nPRINTOUT\nEXIT\n");
    assert!(out.is_empty());
    assert_eq!(r, Ok(RunStatus::Exited(0)));
}

#[test]
fn push_str_then_printstr_prints_and_restores_stack() {
    let program = AsmParser::new("t.asm".to_string())
        .assemble("@PushStr \"hi\"\nPRINTSTR\n")
        .unwrap();
    let mut machine = StackMachine::new(DebugInfo::new());
    let mut out = Vec::new();
    for _ in 0..program.len() {
        machine.eval(&program, &mut out).unwrap();
    }
    assert_eq!(out, vec![Output::Char(b'h'), Output::Char(b'i')]);
    assert!(machine.stack().is_empty());
    assert_eq!(machine.instruction_ptr(), 4);
}

#[test]
fn printstr_keeps_values_below_the_terminator() {
    let (r, out, m) = run_program(&[
        Instruction::Push(5),
        Instruction::Push(0),
        Instruction::Push(0x141),
        Instruction::Printstr,
        Instruction::Printout,
        Instruction::Exit,
    ]);
    assert_eq!(out, vec![Output::Char(0x41), Output::Number(5)]);
    assert_eq!(r, Ok(RunStatus::Exited(0)));
    assert!(m.stack().is_empty());
}

#[test]
fn printstr_without_terminator_underflows() {
    let (r, out, _) = run_program(&[Instruction::Push(66), Instruction::Printstr]);
    assert_eq!(
        r,
        Err(ExecError { addr: 1, fault: Fault::StackUnderflow(Instruction::Printstr) })
    );
    assert_eq!(out, vec![Output::Char(66)]);
}

#[test]
fn call_then_jmp_returns_after_the_call() {
    let (r, out, _) =
        run_source("PUSH sub\nCALL\nPUSH 7\nPRINTOUT\nEXIT\nsub:\nPUSH 1\nPRINTOUT\nJMP\n");
    assert_eq!(out, vec![Output::Number(1), Output::Number(7)]);
    assert_eq!(r, Ok(RunStatus::Exited(0)));
}

#[test]
fn call_pushes_the_return_address() {
    let mut machine = StackMachine::new(DebugInfo::new());
    let program = [Instruction::Push(3), Instruction::Call, Instruction::Exit, Instruction::Exit];
    let mut out = Vec::new();
    machine.eval(&program, &mut out).unwrap();
    machine.eval(&program, &mut out).unwrap();
    assert_eq!(machine.instruction_ptr(), 3);
    assert_eq!(machine.stack(), &vec![2]);
}

#[test]
fn division_by_zero_is_a_fault() {
    let (r, _, m) = run_source("PUSH 0\nPUSH 10\nDIV\n");
    assert_eq!(r, Err(ExecError { addr: 2, fault: Fault::DivisionByZero }));
    assert_eq!(m.exit_code(), Some(FAULT_EXIT_CODE));
}

#[test]
fn arithmetic_takes_the_top_as_left_operand() {
    let (r, out, _) = run_source(
        "PUSH 3\nPUSH 10\nSUB\nPRINTOUT\nPUSH 3\nPUSH -7\nDIV\nPRINTOUT\nPUSH 3\nPUSH 7\nDIV\nPRINTOUT\nEXIT",
    );
    assert_eq!(out, vec![Output::Number(7), Output::Number(-2), Output::Number(2)]);
    assert_eq!(r, Ok(RunStatus::Exited(0)));
}

#[test]
fn overflow_is_a_fault() {
    let (r, _, _) = run_program(&[
        Instruction::Push(1),
        Instruction::Push(i64::MAX),
        Instruction::Add,
    ]);
    assert_eq!(r, Err(ExecError { addr: 2, fault: Fault::Overflow(Instruction::Add) }));
    let (r, _, _) = run_program(&[
        Instruction::Push(-1),
        Instruction::Push(i64::MIN),
        Instruction::Div,
    ]);
    assert_eq!(r, Err(ExecError { addr: 2, fault: Fault::Overflow(Instruction::Div) }));
    let (r, out, _) = run_program(&[
        Instruction::Push(i64::MIN),
        Instruction::Push(i64::MIN),
        Instruction::Div,
        Instruction::Printout,
        Instruction::Push(i64::MIN),
        Instruction::Push(7),
        Instruction::Div,
        Instruction::Printout,
        Instruction::Exit,
    ]);
    assert_eq!(out, vec![Output::Number(1), Output::Number(0)]);
    assert_eq!(r, Ok(RunStatus::Exited(0)));
}

#[test]
fn swap_and_conditional_jumps() {
    let (r, out, _) = run_source(
        "PUSH 1\nPUSH 2\nSWAP\nPRINTOUT\nPRINTOUT\nPUSH 0\nPUSH skip\nJZ\nPUSH 50\nPRINTOUT\nskip:\nPUSH 1\nPUSH end\nJNZ\nPUSH 60\nPRINTOUT\nend:\nPUSH 5\nPUSH 9\nJZ\nPUSH 3\nEXIT",
    );
    assert_eq!(out, vec![Output::Number(1), Output::Number(2)]);
    assert_eq!(r, Ok(RunStatus::Exited(3)));
}

#[test]
fn exit_takes_the_top_as_code() {
    let (r, _, m) = run_source("PUSH 7\nPUSH 42\nEXIT\n");
    assert_eq!(r, Ok(RunStatus::Exited(42)));
    assert_eq!(m.stack(), &vec![7]);
    assert_eq!(m.exit_code(), Some(42));
}

#[test]
fn running_off_the_end_is_a_fault() {
    let (r, _, m) = run_source("PUSH 1\n");
    assert_eq!(r, Err(ExecError { addr: 1, fault: Fault::NoInstructionLeft }));
    assert_eq!(m.exit_code(), Some(FAULT_EXIT_CODE));
    let (r, _, _) = run_program(&[]);
    assert_eq!(r, Err(ExecError { addr: 0, fault: Fault::NoInstructionLeft }));
}

#[test]
fn jump_outside_the_program_is_a_fault() {
    let (r, _, _) = run_source("PUSH 100\nJMP\n");
    assert_eq!(r, Err(ExecError { addr: 100, fault: Fault::NoInstructionLeft }));
}

#[test]
fn run_stops_when_the_budget_is_spent() {
    let program = AsmParser::new("t.asm".to_string())
        .assemble("top:\nPUSH top\nJMP\n")
        .unwrap();
    let mut machine = StackMachine::new(DebugInfo::new());
    let mut out = Vec::new();
    assert_eq!(machine.run(&program, &mut out, 5), Ok(RunStatus::Suspended));
    assert_eq!(machine.instruction_ptr(), 1);
    assert_eq!(machine.exit_code(), None);
}

#[test]
fn verbose_run_pauses_at_breakpoints() {
    let mut parser = AsmParser::new("t.asm".to_string());
    let program = parser.assemble("PUSH 1\n@Break\nPRINTOUT\nEXIT\n").unwrap();
    let mut info = parser.debug_info();
    info.set_verbose(true);
    let mut machine = StackMachine::new(info);
    let mut out = Vec::new();
    assert_eq!(machine.run(&program, &mut out, 100), Ok(RunStatus::Breakpoint));
    assert_eq!(machine.instruction_ptr(), 1);
    assert_eq!(machine.handle_breakpoint("maybe"), None);
    assert_eq!(machine.handle_breakpoint("  y \n"), Some(Ok(())));
    machine.eval(&program, &mut out).unwrap();
    assert_eq!(machine.run(&program, &mut out, 100), Ok(RunStatus::Exited(0)));
    assert_eq!(out, vec![Output::Number(1)]);
}

#[test]
fn quiet_run_ignores_breakpoints() {
    let mut parser = AsmParser::new("t.asm".to_string());
    let program = parser.assemble("@Break\nEXIT\n").unwrap();
    let mut machine = StackMachine::new(parser.debug_info());
    let mut out = Vec::new();
    assert_eq!(machine.run(&program, &mut out, 100), Ok(RunStatus::Exited(0)));
}

#[test]
fn breakpoint_replies() {
    let mut machine = StackMachine::new(DebugInfo::new());
    assert_eq!(machine.handle_breakpoint(""), Some(Ok(())));
    assert_eq!(machine.handle_breakpoint("Y"), Some(Ok(())));
    assert_eq!(machine.handle_breakpoint("yes"), None);
    assert_eq!(machine.exit_code(), None);
    assert_eq!(
        machine.handle_breakpoint(" n\n"),
        Some(Err(ExecError { addr: 0, fault: Fault::Aborted }))
    );
    assert_eq!(machine.exit_code(), Some(FAULT_EXIT_CODE));
}

#[test]
fn printable_characters() {
    assert!(is_printable('a'));
    assert!(is_printable('Z'));
    assert!(is_printable('5'));
    assert!(is_printable('!'));
    assert!(is_printable('}'));
    assert!(!is_printable('_'));
    assert!(!is_printable('~'));
    assert!(!is_printable(' '));
    assert!(!is_printable('\n'));
    assert!(!is_printable('é'));
}

#[test]
fn debug_info_setters_and_lookups() {
    let mut info = DebugInfo::default();
    assert!(!info.verbose());
    info.set_verbose(true);
    assert!(info.verbose());
    info.add_breakpoint(3);
    assert!(info.breakpoint_at(3));
    assert!(!info.breakpoint_at(4));
    info.add_label(2, "a".to_string());
    info.add_label(2, "b".to_string());
    assert_eq!(info.label_at(2), Some(&"b".to_string()));
    assert_eq!(info.label_at(3), None);
}

#[test]
fn debug_info_clones_its_records() {
    let mut info = DebugInfo::new();
    info.add_breakpoint(5);
    info.add_label(1, "start".to_string());
    info.set_verbose(true);
    let copy = info.clone();
    assert!(copy.breakpoint_at(5));
    assert_eq!(copy.label_at(1), Some(&"start".to_string()));
    assert!(copy.verbose());
}
