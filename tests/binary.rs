use spvm::binary::{Binary, LoadError};
use spvm::instruction::Instruction;

fn sample_program() -> Vec<Instruction> {
    vec![
        Instruction::Push(4),
        Instruction::Push(-5),
        Instruction::Add,
        Instruction::Dup,
        Instruction::Mul,
        Instruction::Printout,
        Instruction::Push(i64::MIN),
        Instruction::Call,
        Instruction::Printstr,
        Instruction::Exit,
    ]
}

#[test]
fn saved_bytes_start_with_magic_and_count() {
    let bytes = Binary::from_instructions(vec![Instruction::Pop, Instruction::Push(7)]).as_bytes();
    assert_eq!(
        bytes,
        vec![
            b'.', b'S', b'P', b'V', b'M', 2, 0, 0, 0, 0, 0, 0, 0, 1, 0, 0, 0, 7, 0, 0, 0, 0, 0, 0,
            0
        ]
    );
}

#[test]
fn save_then_load_gives_the_same_instructions() {
    let bytes = Binary::from_instructions(sample_program()).as_bytes();
    let loaded = Binary::from_bytes(&bytes).unwrap();
    assert_eq!(loaded.instructions(), sample_program());
}

#[test]
fn empty_program_round_trips() {
    let bytes = Binary::from_instructions(vec![]).as_bytes();
    assert_eq!(bytes.len(), 13);
    assert_eq!(Binary::from_bytes(&bytes).unwrap().instructions(), vec![]);
}

#[test]
fn wrong_magic_is_refused() {
    let mut bytes = Binary::from_instructions(sample_program()).as_bytes();
    bytes[1] = b'X';
    assert_eq!(Binary::from_bytes(&bytes).err(), Some(LoadError::WrongFormat));
}

#[test]
fn short_streams_are_truncated() {
    assert_eq!(Binary::from_bytes(b".SP").err(), Some(LoadError::Truncated));
    assert_eq!(Binary::from_bytes(b".SPVM\x01\x00").err(), Some(LoadError::Truncated));
    let bytes = Binary::from_instructions(sample_program()).as_bytes();
    assert_eq!(
        Binary::from_bytes(&bytes[..bytes.len() - 1]).err(),
        Some(LoadError::Truncated)
    );
    let push = Binary::from_instructions(vec![Instruction::Push(9)]).as_bytes();
    assert_eq!(
        Binary::from_bytes(&push[..push.len() - 3]).err(),
        Some(LoadError::Truncated)
    );
}

#[test]
fn unknown_opcode_is_refused() {
    let bytes = vec![b'.', b'S', b'P', b'V', b'M', 1, 0, 0, 0, 0, 0, 0, 0, 15, 0];
    assert_eq!(Binary::from_bytes(&bytes).err(), Some(LoadError::UnknownOpcode(15)));
}

#[test]
fn bytes_after_the_declared_count_are_ignored() {
    let mut bytes = Binary::from_instructions(vec![Instruction::Exit]).as_bytes();
    bytes.extend_from_slice(&[99, 99, 99]);
    assert_eq!(Binary::from_bytes(&bytes).unwrap().instructions(), vec![Instruction::Exit]);
}
