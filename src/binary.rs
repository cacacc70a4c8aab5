use crate::instruction::{Instruction, ARG_SIZE, ID_SIZE};
use vstd::bytes::*;
use vstd::prelude::*;
use vstd::slice::slice_subrange;

verus! {

/// Why a byte stream is not a saved program.
#[derive(Debug, PartialEq, Eq)]
pub enum LoadError {
    /// The stream does not start with the magic tag.
    WrongFormat,
    /// The stream ends before the header or an instruction is complete.
    Truncated,
    /// An instruction record starts with an opcode that no instruction has.
    UnknownOpcode(u16),
    /// Reading the stream failed; the text describes why.
    Io(String),
}

pub type LoadResult<T> = Result<T, LoadError>;

/// A program as it is saved: the magic tag, the instruction count as eight
/// little-endian bytes, then each instruction's encoding in order.
pub struct Binary {
    instructions: Vec<Instruction>,
}

/// Number of bytes of the magic tag.
pub const MAGIC_SIZE: usize = 5;

/// Number of bytes of the header, which holds the instruction count.
pub const HEADER_SIZE: usize = 8;

/// The magic tag, ".SPVM" in ASCII.
pub open spec fn spec_magic() -> Seq<u8> {
    seq![46u8, 83u8, 80u8, 86u8, 77u8]
}

/// The encodings of `p`'s instructions, back to back.
pub open spec fn encode_all(p: Seq<Instruction>) -> Seq<u8>
    decreases p.len(),
{
    if p.len() == 0 {
        Seq::empty()
    } else {
        encode_all(p.drop_last()) + p.last().spec_encoding()
    }
}

/// The saved form of the program `p`.
pub open spec fn encode_program(p: Seq<Instruction>) -> Seq<u8> {
    spec_magic() + spec_u64_to_le_bytes(p.len() as u64) + encode_all(p)
}

/// The instruction whose opcode is `id`, for every opcode but that of `Push`.
pub open spec fn plain_from_id(id: u16) -> Option<Instruction> {
    if id == 1 {
        Some(Instruction::Pop)
    } else if id == 2 {
        Some(Instruction::Dup)
    } else if id == 3 {
        Some(Instruction::Swap)
    } else if id == 4 {
        Some(Instruction::Jz)
    } else if id == 5 {
        Some(Instruction::Jnz)
    } else if id == 6 {
        Some(Instruction::Jmp)
    } else if id == 7 {
        Some(Instruction::Add)
    } else if id == 8 {
        Some(Instruction::Sub)
    } else if id == 9 {
        Some(Instruction::Mul)
    } else if id == 10 {
        Some(Instruction::Div)
    } else if id == 11 {
        Some(Instruction::Exit)
    } else if id == 12 {
        Some(Instruction::Printout)
    } else if id == 13 {
        Some(Instruction::Call)
    } else if id == 14 {
        Some(Instruction::Printstr)
    } else {
        None
    }
}

/// Reads one instruction record at `pos`: the instruction and the position
/// just past it.
pub open spec fn decode_one(bytes: Seq<u8>, pos: int) -> LoadResult<(Instruction, int)> {
    if pos + 2 > bytes.len() {
        Err(LoadError::Truncated)
    } else {
        let id = spec_u16_from_le_bytes(bytes.subrange(pos, pos + 2));
        if id == 0 {
            if pos + 10 > bytes.len() {
                Err(LoadError::Truncated)
            } else {
                let arg = spec_u64_from_le_bytes(bytes.subrange(pos + 2, pos + 10)) as i64;
                Ok((Instruction::Push(arg), pos + 10))
            }
        } else {
            match plain_from_id(id) {
                Some(i) => Ok((i, pos + 2)),
                None => Err(LoadError::UnknownOpcode(id)),
            }
        }
    }
}

/// Reads `n` instruction records, the first at `pos`.
pub open spec fn decode_n(bytes: Seq<u8>, pos: int, n: nat) -> LoadResult<Seq<Instruction>>
    decreases n,
{
    if n == 0 {
        Ok(Seq::empty())
    } else {
        match decode_one(bytes, pos) {
            Err(e) => Err(e),
            Ok((i, next)) => match decode_n(bytes, next, (n - 1) as nat) {
                Err(e) => Err(e),
                Ok(rest) => Ok(seq![i] + rest),
            },
        }
    }
}

/// The program that the byte stream `bytes` holds, or why it holds none.
/// Bytes after the last declared instruction are not read.
pub open spec fn decode_program(bytes: Seq<u8>) -> LoadResult<Seq<Instruction>> {
    if bytes.len() < 5 {
        Err(LoadError::Truncated)
    } else if bytes.subrange(0, 5) != spec_magic() {
        Err(LoadError::WrongFormat)
    } else if bytes.len() < 13 {
        Err(LoadError::Truncated)
    } else {
        decode_n(bytes, 13, spec_u64_from_le_bytes(bytes.subrange(5, 13)) as nat)
    }
}

fn magic_bytes() -> (r: Vec<u8>)
    ensures
        r@ == spec_magic(),
{
    let r: Vec<u8> = vec![46u8, 83u8, 80u8, 86u8, 77u8];
    assert(r@ =~= spec_magic());
    r
}

/// Reads the instruction record that starts at `pos`.
fn read_instruction(bytes: &[u8], pos: usize) -> (r: LoadResult<(Instruction, usize)>)
    ensures
        match r {
            Ok((i, next)) => decode_one(bytes@, pos as int) == Ok::<(Instruction, int), LoadError>(
                (i, next as int),
            ),
            Err(e) => decode_one(bytes@, pos as int) == Err::<(Instruction, int), LoadError>(e),
        },
{
    if bytes.len() < ID_SIZE || pos > bytes.len() - ID_SIZE {
        return Err(LoadError::Truncated);
    }
    let id = u16_from_le_bytes(slice_subrange(bytes, pos, pos + ID_SIZE));
    let next = pos + ID_SIZE;
    let instruction = match id {
        0 => {
            if bytes.len() - next < ARG_SIZE {
                return Err(LoadError::Truncated);
            }
            let arg = u64_from_le_bytes(slice_subrange(bytes, next, next + ARG_SIZE));
            return Ok((Instruction::Push(arg as i64), next + ARG_SIZE));
        },
        1 => Instruction::Pop,
        2 => Instruction::Dup,
        3 => Instruction::Swap,
        4 => Instruction::Jz,
        5 => Instruction::Jnz,
        6 => Instruction::Jmp,
        7 => Instruction::Add,
        8 => Instruction::Sub,
        9 => Instruction::Mul,
        10 => Instruction::Div,
        11 => Instruction::Exit,
        12 => Instruction::Printout,
        13 => Instruction::Call,
        14 => Instruction::Printstr,
        _ => {
            return Err(LoadError::UnknownOpcode(id));
        },
    };
    Ok((instruction, next))
}

proof fn lemma_encode_all_front(p: Seq<Instruction>)
    requires
        p.len() > 0,
    ensures
        encode_all(p) == p[0].spec_encoding() + encode_all(p.drop_first()),
    decreases p.len(),
{
    if p.len() > 1 {
        lemma_encode_all_front(p.drop_last());
        assert(p.drop_last().drop_first() =~= p.drop_first().drop_last());
        assert(p.drop_first().last() == p.last());
        assert(encode_all(p) =~= p[0].spec_encoding() + encode_all(p.drop_first()));
    } else {
        assert(p.drop_last() =~= Seq::<Instruction>::empty());
        assert(p.drop_first() =~= Seq::<Instruction>::empty());
        assert(encode_all(p) =~= p[0].spec_encoding() + encode_all(p.drop_first()));
    }
}

proof fn lemma_i64_through_u64(v: i64)
    ensures
        (v as u64) as i64 == v,
{
    assert((v as u64) as i64 == v) by (bit_vector);
}

/// A record read where an instruction's encoding stands gives that
/// instruction back, and reading goes on just after the encoding: 10 bytes
/// for `PUSH`, 2 for the others.
pub proof fn law_decode_one_encoding(bytes: Seq<u8>, pos: int, i: Instruction)
    requires
        0 <= pos,
        pos + i.spec_encoding().len() <= bytes.len(),
        bytes.subrange(pos, pos + i.spec_encoding().len()) == i.spec_encoding(),
    ensures
        decode_one(bytes, pos) == Ok::<(Instruction, int), LoadError>(
            (i, pos + i.spec_encoding().len()),
        ),
        i.spec_encoding().len() == if i is Push {
            10int
        } else {
            2int
        },
{
    lemma_auto_spec_u16_to_from_le_bytes();
    lemma_auto_spec_u64_to_from_le_bytes();
    let e = i.spec_encoding();
    assert(bytes.subrange(pos, pos + 2) =~= e.subrange(0, 2));
    assert(e.subrange(0, 2) =~= spec_u16_to_le_bytes(i.spec_id()));
    if let Instruction::Push(v) = i {
        assert(bytes.subrange(pos + 2, pos + 10) =~= e.subrange(2, 10));
        assert(e.subrange(2, 10) =~= spec_u64_to_le_bytes(v as u64));
        lemma_i64_through_u64(v);
    }
}

proof fn lemma_decode_n_encoding(bytes: Seq<u8>, pos: int, q: Seq<Instruction>)
    requires
        0 <= pos,
        pos + encode_all(q).len() <= bytes.len(),
        bytes.subrange(pos, pos + encode_all(q).len()) == encode_all(q),
    ensures
        decode_n(bytes, pos, q.len()) == Ok::<Seq<Instruction>, LoadError>(q),
    decreases q.len(),
{
    if q.len() == 0 {
        assert(q =~= Seq::<Instruction>::empty());
    } else {
        lemma_encode_all_front(q);
        let e = q[0].spec_encoding();
        let n = e.len();
        let total = encode_all(q);
        assert(bytes.subrange(pos, pos + n) =~= total.subrange(0, n as int));
        assert(total.subrange(0, n as int) =~= e);
        law_decode_one_encoding(bytes, pos, q[0]);
        let rest = q.drop_first();
        assert(bytes.subrange(pos + n, pos + n + encode_all(rest).len()) =~= total.subrange(
            n as int,
            total.len() as int,
        ));
        assert(total.subrange(n as int, total.len() as int) =~= encode_all(rest));
        lemma_decode_n_encoding(bytes, pos + n, rest);
        assert(seq![q[0]] + rest =~= q);
    }
}

/// Saving a program and loading the bytes back gives the same instructions,
/// in the same order.
pub proof fn law_save_load_round_trip(p: Seq<Instruction>)
    requires
        p.len() <= u64::MAX,
    ensures
        decode_program(encode_program(p)) == Ok::<Seq<Instruction>, LoadError>(p),
{
    lemma_auto_spec_u64_to_from_le_bytes();
    let bytes = encode_program(p);
    let count = spec_u64_to_le_bytes(p.len() as u64);
    assert(bytes.subrange(0, 5) =~= spec_magic());
    assert(bytes.subrange(5, 13) =~= count);
    assert(bytes.subrange(13, bytes.len() as int) =~= encode_all(p));
    lemma_decode_n_encoding(bytes, 13, p);
}

impl Binary {
    pub closed spec fn spec_instructions(&self) -> Seq<Instruction> {
        self.instructions@
    }

    pub fn from_instructions(instructions: Vec<Instruction>) -> (r: Binary)
        ensures
            r.spec_instructions() == instructions@,
    {
        Binary { instructions }
    }

    pub fn instructions(self) -> (r: Vec<Instruction>)
        ensures
            r@ == self.spec_instructions(),
    {
        self.instructions
    }

    /// The bytes that saving the program writes.
    pub fn as_bytes(&self) -> (r: Vec<u8>)
        ensures
            r@ == encode_program(self.spec_instructions()),
    {
        let mut bytes = magic_bytes();
        let mut count = u64_to_le_bytes(self.instructions.len() as u64);
        bytes.append(&mut count);
        let ghost head = bytes@;
        let mut i: usize = 0;
        while i < self.instructions.len()
            invariant
                i <= self.instructions@.len(),
                head == spec_magic() + spec_u64_to_le_bytes(self.instructions@.len() as u64),
                bytes@ == head + encode_all(self.instructions@.take(i as int)),
            decreases self.instructions@.len() - i,
        {
            let mut record = self.instructions[i].as_bytes();
            bytes.append(&mut record);
            proof {
                let p = self.instructions@;
                assert(p.take(i + 1).drop_last() =~= p.take(i as int));
            }
            i += 1;
        }
        assert(self.instructions@.take(i as int) =~= self.instructions@);
        bytes
    }

    /// Reads a saved program back from its bytes.
    pub fn from_bytes(bytes: &[u8]) -> (r: LoadResult<Binary>)
        ensures
            match r {
                Ok(b) => decode_program(bytes@) == Ok::<Seq<Instruction>, LoadError>(
                    b.spec_instructions(),
                ),
                Err(e) => decode_program(bytes@) == Err::<Seq<Instruction>, LoadError>(e),
            },
    {
        if bytes.len() < MAGIC_SIZE {
            return Err(LoadError::Truncated);
        }
        let magic = magic_bytes();
        let mut k: usize = 0;
        while k < MAGIC_SIZE
            invariant
                k <= MAGIC_SIZE,
                bytes@.len() >= MAGIC_SIZE,
                magic@ == spec_magic(),
                forall|j: int| 0 <= j < k ==> bytes@[j] == magic@[j],
            decreases MAGIC_SIZE - k,
        {
            if bytes[k] != magic[k] {
                assert(bytes@.subrange(0, 5)[k as int] != spec_magic()[k as int]);
                return Err(LoadError::WrongFormat);
            }
            k += 1;
        }
        assert(bytes@.subrange(0, 5) =~= spec_magic());
        if bytes.len() < MAGIC_SIZE + HEADER_SIZE {
            return Err(LoadError::Truncated);
        }
        let count = u64_from_le_bytes(slice_subrange(bytes, MAGIC_SIZE, MAGIC_SIZE + HEADER_SIZE));
        let mut instructions: Vec<Instruction> = Vec::new();
        let mut pos: usize = MAGIC_SIZE + HEADER_SIZE;
        let mut n: u64 = 0;
        while n < count
            invariant
                n <= count,
                pos <= bytes@.len(),
                count == spec_u64_from_le_bytes(bytes@.subrange(5, 13)),
                decode_program(bytes@) == match decode_n(bytes@, pos as int, (count - n) as nat) {
                    Ok(rest) => Ok(instructions@ + rest),
                    Err(e) => Err(e),
                },
            decreases count - n,
        {
            match read_instruction(bytes, pos) {
                Ok((instruction, next)) => {
                    proof {
                        let rest = decode_n(bytes@, next as int, (count - n - 1) as nat);
                        assert(instructions@.push(instruction) + rest.unwrap() =~= instructions@
                            + (seq![instruction] + rest.unwrap())) by {
                            if rest is Ok {
                                assert(instructions@.push(instruction) + rest.unwrap()
                                    =~= instructions@ + (seq![instruction] + rest.unwrap()));
                            }
                        }
                    }
                    instructions.push(instruction);
                    pos = next;
                },
                Err(e) => {
                    return Err(e);
                },
            }
            n += 1;
        }
        assert(instructions@ + Seq::<Instruction>::empty() =~= instructions@);
        Ok(Binary { instructions })
    }
}

} // verus!
