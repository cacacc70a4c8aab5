use vstd::bytes::*;
use vstd::prelude::*;

verus! {

/// The machine word: every operand and every stack entry is one of these.
pub type Value = i64;

/// One instruction of the machine. Only `Push` carries an operand; jump
/// targets travel on the operand stack.
#[derive(Clone, Copy, Debug, PartialEq, Eq, Structural)]
pub enum Instruction {
    Push(Value),
    Pop,
    Dup,
    Swap,
    Jz,
    Jnz,
    Jmp,
    Call,
    Add,
    Sub,
    Mul,
    Div,
    Exit,
    Printout,
    Printstr,
}

/// The number of operand bytes that follow the opcode of a `Push`.
pub const ARG_SIZE: usize = 8;

/// The number of bytes of an encoded opcode.
pub const ID_SIZE: usize = 2;

impl Instruction {
    /// The text name of the instruction, as the assembler reads it.
    pub open spec fn spec_mnemonic(self) -> Seq<char> {
        match self {
            Instruction::Push(_) => seq!['P', 'U', 'S', 'H'],
            Instruction::Pop => seq!['P', 'O', 'P'],
            Instruction::Dup => seq!['D', 'U', 'P'],
            Instruction::Swap => seq!['S', 'W', 'A', 'P'],
            Instruction::Jz => seq!['J', 'Z'],
            Instruction::Jnz => seq!['J', 'N', 'Z'],
            Instruction::Jmp => seq!['J', 'M', 'P'],
            Instruction::Call => seq!['C', 'A', 'L', 'L'],
            Instruction::Add => seq!['A', 'D', 'D'],
            Instruction::Sub => seq!['S', 'U', 'B'],
            Instruction::Mul => seq!['M', 'U', 'L'],
            Instruction::Div => seq!['D', 'I', 'V'],
            Instruction::Exit => seq!['E', 'X', 'I', 'T'],
            Instruction::Printout => seq!['P', 'R', 'I', 'N', 'T', 'O', 'U', 'T'],
            Instruction::Printstr => seq!['P', 'R', 'I', 'N', 'T', 'S', 'T', 'R'],
        }
    }

    /// The opcode number used in the byte encoding.
    pub open spec fn spec_id(self) -> u16 {
        match self {
            Instruction::Push(_) => 0,
            Instruction::Pop => 1,
            Instruction::Dup => 2,
            Instruction::Swap => 3,
            Instruction::Jz => 4,
            Instruction::Jnz => 5,
            Instruction::Jmp => 6,
            Instruction::Add => 7,
            Instruction::Sub => 8,
            Instruction::Mul => 9,
            Instruction::Div => 10,
            Instruction::Exit => 11,
            Instruction::Printout => 12,
            Instruction::Call => 13,
            Instruction::Printstr => 14,
        }
    }

    /// The exact bytes of the instruction: the opcode as two little-endian
    /// bytes, then, for `Push` only, the operand as eight little-endian
    /// two's-complement bytes.
    pub open spec fn spec_encoding(self) -> Seq<u8> {
        match self {
            Instruction::Push(v) => spec_u16_to_le_bytes(self.spec_id()) + spec_u64_to_le_bytes(
                v as u64,
            ),
            _ => spec_u16_to_le_bytes(self.spec_id()),
        }
    }

    pub fn mnemonic(&self) -> (r: &'static str)
        ensures
            r@ == self.spec_mnemonic(),
    {
        match self {
            Instruction::Push(_) => {
                proof {
                    reveal_strlit("PUSH");
                }
                "PUSH"
            },
            Instruction::Pop => {
                proof {
                    reveal_strlit("POP");
                }
                "POP"
            },
            Instruction::Dup => {
                proof {
                    reveal_strlit("DUP");
                }
                "DUP"
            },
            Instruction::Swap => {
                proof {
                    reveal_strlit("SWAP");
                }
                "SWAP"
            },
            Instruction::Jz => {
                proof {
                    reveal_strlit("JZ");
                }
                "JZ"
            },
            Instruction::Jnz => {
                proof {
                    reveal_strlit("JNZ");
                }
                "JNZ"
            },
            Instruction::Jmp => {
                proof {
                    reveal_strlit("JMP");
                }
                "JMP"
            },
            Instruction::Call => {
                proof {
                    reveal_strlit("CALL");
                }
                "CALL"
            },
            Instruction::Add => {
                proof {
                    reveal_strlit("ADD");
                }
                "ADD"
            },
            Instruction::Sub => {
                proof {
                    reveal_strlit("SUB");
                }
                "SUB"
            },
            Instruction::Mul => {
                proof {
                    reveal_strlit("MUL");
                }
                "MUL"
            },
            Instruction::Div => {
                proof {
                    reveal_strlit("DIV");
                }
                "DIV"
            },
            Instruction::Exit => {
                proof {
                    reveal_strlit("EXIT");
                }
                "EXIT"
            },
            Instruction::Printout => {
                proof {
                    reveal_strlit("PRINTOUT");
                }
                "PRINTOUT"
            },
            Instruction::Printstr => {
                proof {
                    reveal_strlit("PRINTSTR");
                }
                "PRINTSTR"
            },
        }
    }

    pub fn id(&self) -> (r: u16)
        ensures
            r == self.spec_id(),
    {
        match self {
            Instruction::Push(_) => 0,
            Instruction::Pop => 1,
            Instruction::Dup => 2,
            Instruction::Swap => 3,
            Instruction::Jz => 4,
            Instruction::Jnz => 5,
            Instruction::Jmp => 6,
            Instruction::Call => 13,
            Instruction::Add => 7,
            Instruction::Sub => 8,
            Instruction::Mul => 9,
            Instruction::Div => 10,
            Instruction::Exit => 11,
            Instruction::Printout => 12,
            Instruction::Printstr => 14,
        }
    }

    /// Replaces the operand of a `Push`; any other instruction is left as it is.
    pub fn set_arg(&mut self, arg: Value)
        ensures
            *final(self) == (match *old(self) {
                Instruction::Push(_) => Instruction::Push(arg),
                other => other,
            }),
    {
        if let Instruction::Push(a) = self {
            *a = arg;
        }
    }

    pub fn as_bytes(&self) -> (r: Vec<u8>)
        ensures
            r@ == self.spec_encoding(),
    {
        let mut bytes = u16_to_le_bytes(self.id());
        if let Instruction::Push(arg) = self {
            let mut operand = u64_to_le_bytes(*arg as u64);
            bytes.append(&mut operand);
        }
        bytes
    }
}

} // verus!
