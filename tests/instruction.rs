use spvm::instruction::Instruction;

#[test]
fn mnemonics_are_the_assembler_names() {
    assert_eq!(Instruction::Push(3).mnemonic(), "PUSH");
    assert_eq!(Instruction::Pop.mnemonic(), "POP");
    assert_eq!(Instruction::Jnz.mnemonic(), "JNZ");
    assert_eq!(Instruction::Call.mnemonic(), "CALL");
    assert_eq!(Instruction::Printout.mnemonic(), "PRINTOUT");
    assert_eq!(Instruction::Printstr.mnemonic(), "PRINTSTR");
}

#[test]
fn opcode_ids_follow_the_table() {
    assert_eq!(Instruction::Push(-1).id(), 0);
    assert_eq!(Instruction::Pop.id(), 1);
    assert_eq!(Instruction::Jmp.id(), 6);
    assert_eq!(Instruction::Add.id(), 7);
    assert_eq!(Instruction::Div.id(), 10);
    assert_eq!(Instruction::Exit.id(), 11);
    assert_eq!(Instruction::Printout.id(), 12);
    assert_eq!(Instruction::Call.id(), 13);
    assert_eq!(Instruction::Printstr.id(), 14);
}

#[test]
fn set_arg_changes_only_push() {
    let mut p = Instruction::Push(0);
    p.set_arg(42);
    assert_eq!(p, Instruction::Push(42));
    let mut j = Instruction::Jmp;
    j.set_arg(42);
    assert_eq!(j, Instruction::Jmp);
}

#[test]
fn push_encodes_opcode_then_le_operand() {
    assert_eq!(Instruction::Push(1).as_bytes(), vec![0, 0, 1, 0, 0, 0, 0, 0, 0, 0]);
    assert_eq!(
        Instruction::Push(-2).as_bytes(),
        vec![0, 0, 0xfe, 0xff, 0xff, 0xff, 0xff, 0xff, 0xff, 0xff]
    );
    assert_eq!(
        Instruction::Push(0x0102030405060708).as_bytes(),
        vec![0, 0, 8, 7, 6, 5, 4, 3, 2, 1]
    );
}

#[test]
fn other_instructions_encode_as_two_bytes() {
    assert_eq!(Instruction::Call.as_bytes(), vec![13, 0]);
    assert_eq!(Instruction::Printstr.as_bytes(), vec![14, 0]);
    assert_eq!(Instruction::Pop.as_bytes(), vec![1, 0]);
}
