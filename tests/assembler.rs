use spvm::assembler::{AsmError, AsmParser, ParseError};
use spvm::instruction::Instruction;

fn assemble_text(src: &str) -> Result<Vec<Instruction>, ParseError> {
    AsmParser::new("prog.asm".to_string()).assemble(src)
}

fn asm_error(src: &str) -> (AsmError, usize) {
    match assemble_text(src) {
        Err(ParseError::Parse { err, file, lineno }) => {
            assert_eq!(file, "prog.asm");
            (err, lineno)
        }
        other => panic!("expected a parse error, got {:?}", other),
    }
}

#[test]
fn plain_instructions_assemble_in_order() {
    let p = assemble_text("PUSH 4\nPUSH 5\nADD\nDUP\nMUL\nPRINTOUT\nEXIT\n").unwrap();
    assert_eq!(
        p,
        vec![
            Instruction::Push(4),
            Instruction::Push(5),
            Instruction::Add,
            Instruction::Dup,
            Instruction::Mul,
            Instruction::Printout,
            Instruction::Exit
        ]
    );
}

#[test]
fn blank_lines_comments_and_spacing_are_skipped() {
    let p = assemble_text("; a comment\n\n   \t PUSH   -12   ; trailing\r\n  EXIT\n").unwrap();
    assert_eq!(p, vec![Instruction::Push(-12), Instruction::Exit]);
}

#[test]
fn integer_operands_follow_rust_syntax() {
    let p = assemble_text("PUSH +7\nPUSH 9223372036854775807\nPUSH -9223372036854775808\nPUSH 007")
        .unwrap();
    assert_eq!(
        p,
        vec![
            Instruction::Push(7),
            Instruction::Push(i64::MAX),
            Instruction::Push(i64::MIN),
            Instruction::Push(7)
        ]
    );
}

#[test]
fn out_of_range_integer_is_a_label_reference() {
    let (err, _) = asm_error("PUSH 9223372036854775808\n");
    assert_eq!(
        err,
        AsmError::UnresolvedLabels(vec![("9223372036854775808".to_string(), vec![0])])
    );
}

#[test]
fn backward_label_resolves_at_once() {
    let p = assemble_text("PUSH 1\nstart:\nPUSH start\nJMP\n").unwrap();
    assert_eq!(p, vec![Instruction::Push(1), Instruction::Push(1), Instruction::Jmp]);
}

#[test]
fn forward_labels_are_patched() {
    let src = "PUSH end\nJMP\nPUSH end\nPUSH 99\nPRINTOUT\nend:\nEXIT\n";
    let p = assemble_text(src).unwrap();
    assert_eq!(p[0], Instruction::Push(5));
    assert_eq!(p[2], Instruction::Push(5));
    assert_eq!(p[5], Instruction::Exit);
}

#[test]
fn label_followed_by_comment_is_a_label() {
    let p = assemble_text("PUSH here\nhere: ; the target\nEXIT").unwrap();
    assert_eq!(p, vec![Instruction::Push(1), Instruction::Exit]);
}

#[test]
fn redefined_label_takes_the_new_address_for_later_uses() {
    let p = assemble_text("a:\nPUSH a\na:\nPUSH a\n").unwrap();
    assert_eq!(p, vec![Instruction::Push(0), Instruction::Push(1)]);
}

#[test]
fn debug_info_records_labels_and_breakpoints() {
    let mut parser = AsmParser::new("x".to_string());
    parser.assemble("PUSH 1\nloop:\n@Break\nPOP\n").unwrap();
    let info = parser.debug_info();
    assert_eq!(info.label_at(1), Some(&"loop".to_string()));
    assert_eq!(info.label_at(0), None);
    assert!(info.breakpoint_at(1));
    assert!(!info.breakpoint_at(0));
    assert!(!info.verbose());
}

#[test]
fn push_str_pushes_reversed_with_terminator() {
    let p = assemble_text("@PushStr \"hi\"\n").unwrap();
    assert_eq!(
        p,
        vec![Instruction::Push(0), Instruction::Push('i' as i64), Instruction::Push('h' as i64)]
    );
}

#[test]
fn push_str_joins_words_and_reads_escapes() {
    let p = assemble_text("@PushStr \"a  b\\n\" ; comment\n").unwrap();
    assert_eq!(
        p,
        vec![
            Instruction::Push(0),
            Instruction::Push('\n' as i64),
            Instruction::Push('b' as i64),
            Instruction::Push(' ' as i64),
            Instruction::Push('a' as i64)
        ]
    );
    let q = assemble_text("@PushStr \"\\t\\0\\\\\"").unwrap();
    assert_eq!(
        q,
        vec![
            Instruction::Push(0),
            Instruction::Push('\\' as i64),
            Instruction::Push(0),
            Instruction::Push('\t' as i64)
        ]
    );
}

#[test]
fn unresolved_labels_fail_on_the_last_line_and_name_the_labels() {
    let (err, lineno) = asm_error("PUSH nowhere\nPUSH 1\nPUSH nowhere\nPUSH elsewhere\n");
    assert_eq!(lineno, 4);
    assert_eq!(
        err,
        AsmError::UnresolvedLabels(vec![
            ("nowhere".to_string(), vec![0, 2]),
            ("elsewhere".to_string(), vec![3])
        ])
    );
}

#[test]
fn unknown_mnemonic_is_an_error_with_its_line() {
    let (err, lineno) = asm_error("PUSH 1\n\nFOO\n");
    assert_eq!(err, AsmError::NoSuchMnemonic("FOO".to_string()));
    assert_eq!(lineno, 3);
}

#[test]
fn push_without_operand_is_an_error() {
    assert_eq!(asm_error("PUSH ; nothing").0, AsmError::PushExpectsArgument);
}

#[test]
fn operand_on_other_instruction_is_an_error() {
    assert_eq!(
        asm_error("JMP target").0,
        AsmError::UnexpectedArgument("target".to_string())
    );
}

#[test]
fn too_many_arguments_is_an_error() {
    assert_eq!(asm_error("PUSH 1 2").0, AsmError::TooManyArguments("2".to_string()));
    assert_eq!(
        asm_error("@PushStr \"a b\" c").0,
        AsmError::TooManyArguments("c".to_string())
    );
    assert_eq!(asm_error("here: POP").0, AsmError::TooManyArguments("POP".to_string()));
}

#[test]
fn string_literal_errors() {
    assert_eq!(
        asm_error("@PushStr hi").0,
        AsmError::NotAStringLiteral("hi".to_string())
    );
    assert_eq!(
        asm_error("@PushStr \"open ended").0,
        AsmError::NotAStringLiteral("\"open ended".to_string())
    );
    assert_eq!(asm_error("@PushStr \"a\\qb\"").0, AsmError::UnknownEscape('q'));
    assert_eq!(asm_error("@PushStr \"ab\\\"").0, AsmError::UnfinishedEscape);
}

#[test]
fn metainstruction_errors() {
    assert_eq!(
        asm_error("@Nope").0,
        AsmError::NoSuchMetainstruction("Nope".to_string())
    );
    assert_eq!(
        asm_error("@Break 3").0,
        AsmError::NoSuchMetainstruction("Break".to_string())
    );
    assert_eq!(
        asm_error("@PushStr").0,
        AsmError::NoSuchMetainstruction("PushStr".to_string())
    );
}

#[test]
fn empty_source_is_an_empty_program() {
    assert_eq!(assemble_text("").unwrap(), vec![]);
}

#[test]
fn listing_of_a_program_assembles_back_to_it() {
    let program = vec![
        Instruction::Push(-3),
        Instruction::Push(i64::MAX),
        Instruction::Swap,
        Instruction::Jz,
        Instruction::Jnz,
        Instruction::Call,
        Instruction::Sub,
        Instruction::Div,
        Instruction::Pop,
        Instruction::Printstr,
        Instruction::Exit,
    ];
    let mut text = String::new();
    for i in &program {
        text.push_str(i.mnemonic());
        if let Instruction::Push(v) = i {
            text.push_str(&format!(" {}", v));
        }
        text.push('\n');
    }
    assert_eq!(assemble_text(&text).unwrap(), program);
}
