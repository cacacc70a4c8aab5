use crate::debug_info::DebugInfo;
use crate::instruction::{Instruction, Value};
use crate::text::{
    chars_eq, chars_of, parse_int, parse_integer, split_whitespace, split_ws, string_from,
    words_view,
};
use vstd::slice::{slice_subrange, slice_to_vec};
use vstd::prelude::*;

verus! {

/// What is wrong with a program text.
#[derive(Debug, PartialEq, Eq)]
pub enum AsmError {
    /// A word follows the operand, or follows a label.
    TooManyArguments(String),
    /// An instruction that takes no operand was given one.
    UnexpectedArgument(String),
    /// `PUSH` without an operand.
    PushExpectsArgument,
    NoSuchMnemonic(String),
    /// The operand of `@PushStr` is not enclosed in double quotes.
    NotAStringLiteral(String),
    /// A backslash followed by a character that is no escape.
    UnknownEscape(char),
    /// A backslash at the end of a string literal.
    UnfinishedEscape,
    /// An unknown metainstruction, or a known one with the wrong operands.
    NoSuchMetainstruction(String),
    /// Labels that were used and never defined, each with the addresses of
    /// the `PUSH` instructions that refer to it.
    UnresolvedLabels(Vec<(String, Vec<i64>)>),
}

/// An `AsmError` as values.
pub ghost enum AsmFault {
    TooManyArguments(Seq<char>),
    UnexpectedArgument(Seq<char>),
    PushExpectsArgument,
    NoSuchMnemonic(Seq<char>),
    NotAStringLiteral(Seq<char>),
    UnknownEscape(char),
    UnfinishedEscape,
    NoSuchMetainstruction(Seq<char>),
    UnresolvedLabels(Seq<(Seq<char>, Seq<i64>)>),
}

pub open spec fn refs_view(v: Seq<(String, Vec<i64>)>) -> Seq<(Seq<char>, Seq<i64>)> {
    v.map_values(|p: (String, Vec<i64>)| (p.0@, p.1@))
}

pub open spec fn labels_view(v: Seq<(String, i64)>) -> Seq<(Seq<char>, i64)> {
    v.map_values(|p: (String, i64)| (p.0@, p.1))
}

impl View for AsmError {
    type V = AsmFault;

    open spec fn view(&self) -> AsmFault {
        match self {
            AsmError::TooManyArguments(s) => AsmFault::TooManyArguments(s@),
            AsmError::UnexpectedArgument(s) => AsmFault::UnexpectedArgument(s@),
            AsmError::PushExpectsArgument => AsmFault::PushExpectsArgument,
            AsmError::NoSuchMnemonic(s) => AsmFault::NoSuchMnemonic(s@),
            AsmError::NotAStringLiteral(s) => AsmFault::NotAStringLiteral(s@),
            AsmError::UnknownEscape(c) => AsmFault::UnknownEscape(*c),
            AsmError::UnfinishedEscape => AsmFault::UnfinishedEscape,
            AsmError::NoSuchMetainstruction(s) => AsmFault::NoSuchMetainstruction(s@),
            AsmError::UnresolvedLabels(v) => AsmFault::UnresolvedLabels(refs_view(v@)),
        }
    }
}

/// Why a program text could not be assembled.
#[derive(Debug, PartialEq, Eq)]
pub enum ParseError {
    /// An error in the text, with the file and the 1-based line number.
    Parse { err: AsmError, file: String, lineno: usize },
    /// Reading the file failed; the text describes why.
    Io(String),
}

pub type ParseResult<T> = Result<T, ParseError>;

/// The assembler's state between two lines: resolved labels, pending
/// references to labels not yet defined (in order of first use), the
/// debugging records, and the program so far.
pub ghost struct AsmState {
    pub labels: Seq<(Seq<char>, i64)>,
    pub relocs: Seq<(Seq<char>, Seq<i64>)>,
    pub breakpoints: Set<i64>,
    pub names: Map<i64, Seq<char>>,
    pub program: Seq<Instruction>,
}

pub open spec fn starts_with(w: Seq<char>, c: char) -> bool {
    w.len() > 0 && w[0] == c
}

pub open spec fn ends_with(w: Seq<char>, c: char) -> bool {
    w.len() > 0 && w.last() == c
}

/// A word that is a whole string literal on its own: it opens and closes
/// with a double quote.
pub open spec fn closed_literal(w: Seq<char>) -> bool {
    w.len() >= 2 && w[0] == '"' && w.last() == '"'
}

/// The position of the last entry named `k`.
pub open spec fn last_index<V>(entries: Seq<(Seq<char>, V)>, k: Seq<char>) -> Option<int>
    decreases entries.len(),
{
    if entries.len() == 0 {
        None
    } else if entries.last().0 == k {
        Some(entries.len() - 1)
    } else {
        last_index(entries.drop_last(), k)
    }
}

pub proof fn lemma_last_index<V>(entries: Seq<(Seq<char>, V)>, k: Seq<char>)
    ensures
        match last_index(entries, k) {
            Some(i) => 0 <= i < entries.len() && entries[i].0 == k,
            None => forall|j: int| 0 <= j < entries.len() ==> (#[trigger] entries[j]).0 != k,
        },
    decreases entries.len(),
{
    if entries.len() > 0 && entries.last().0 != k {
        lemma_last_index(entries.drop_last(), k);
        if last_index(entries, k) is None {
            assert forall|j: int| 0 <= j < entries.len() implies (#[trigger] entries[j]).0 != k by {
                if j < entries.len() - 1 {
                    assert(entries[j] == entries.drop_last()[j]);
                }
            }
        }
    }
}

/// Words `i` onward, each after a space, up to and including the first that
/// ends with a double quote; and the position after the last word taken.
pub open spec fn join_quoted(words: Seq<Seq<char>>, i: int) -> (Seq<char>, int)
    decreases words.len() - i,
{
    if i >= words.len() || i < 0 {
        (seq![], i)
    } else if ends_with(words[i], '"') {
        (seq![' '] + words[i], i + 1)
    } else {
        let (rest, next) = join_quoted(words, i + 1);
        (seq![' '] + words[i] + rest, next)
    }
}

/// The operand of a line whose first word is the mnemonic: the second word,
/// unless it starts a comment; a string literal split at spaces is joined
/// back. `Err` holds a further word that is not a comment.
pub open spec fn operand(words: Seq<Seq<char>>) -> Result<Option<Seq<char>>, Seq<char>> {
    if words.len() < 2 || starts_with(words[1], ';') {
        Ok(None)
    } else if starts_with(words[1], '"') && !closed_literal(words[1]) {
        let (tail, next) = join_quoted(words, 2);
        if next < words.len() && !starts_with(words[next], ';') {
            Err(words[next])
        } else {
            Ok(Some(words[1] + tail))
        }
    } else if words.len() > 2 && !starts_with(words[2], ';') {
        Err(words[2])
    } else {
        Ok(Some(words[1]))
    }
}

/// The character that the escape `\c` stands for.
pub open spec fn escape_of(c: char) -> Option<char> {
    if c == 'n' {
        Some('\n')
    } else if c == 't' {
        Some('\t')
    } else if c == '0' {
        Some('\0')
    } else if c == '\\' {
        Some('\\')
    } else {
        None
    }
}

/// The characters that the inside of a string literal stands for.
pub open spec fn unescape(s: Seq<char>) -> Result<Seq<char>, AsmFault>
    decreases s.len(),
{
    if s.len() == 0 {
        Ok(seq![])
    } else if s[0] == '\\' {
        if s.len() == 1 {
            Err(AsmFault::UnfinishedEscape)
        } else {
            match escape_of(s[1]) {
                None => Err(AsmFault::UnknownEscape(s[1])),
                Some(c) => match unescape(s.skip(2)) {
                    Ok(rest) => Ok(seq![c] + rest),
                    Err(e) => Err(e),
                },
            }
        }
    } else {
        match unescape(s.drop_first()) {
            Ok(rest) => Ok(seq![s[0]] + rest),
            Err(e) => Err(e),
        }
    }
}

/// The characters of a string literal, followed by the terminating NUL.
pub open spec fn string_literal(w: Seq<char>) -> Result<Seq<char>, AsmFault> {
    if !closed_literal(w) {
        Err(AsmFault::NotAStringLiteral(w))
    } else {
        match unescape(w.subrange(1, w.len() - 1)) {
            Ok(cs) => Ok(cs.push('\0')),
            Err(e) => Err(e),
        }
    }
}

/// One `PUSH` per character of `lit`, last character first, so that popping
/// yields the characters in order.
pub open spec fn string_pushes(lit: Seq<char>) -> Seq<Instruction> {
    Seq::new(lit.len(), |k: int| Instruction::Push(lit[lit.len() - 1 - k] as i64))
}

/// The instruction named by a mnemonic; a `PUSH` with operand 0.
pub open spec fn instruction_named(m: Seq<char>) -> Option<Instruction> {
    if m == Instruction::Push(0).spec_mnemonic() {
        Some(Instruction::Push(0))
    } else if m == Instruction::Pop.spec_mnemonic() {
        Some(Instruction::Pop)
    } else if m == Instruction::Dup.spec_mnemonic() {
        Some(Instruction::Dup)
    } else if m == Instruction::Swap.spec_mnemonic() {
        Some(Instruction::Swap)
    } else if m == Instruction::Jz.spec_mnemonic() {
        Some(Instruction::Jz)
    } else if m == Instruction::Jnz.spec_mnemonic() {
        Some(Instruction::Jnz)
    } else if m == Instruction::Jmp.spec_mnemonic() {
        Some(Instruction::Jmp)
    } else if m == Instruction::Call.spec_mnemonic() {
        Some(Instruction::Call)
    } else if m == Instruction::Add.spec_mnemonic() {
        Some(Instruction::Add)
    } else if m == Instruction::Sub.spec_mnemonic() {
        Some(Instruction::Sub)
    } else if m == Instruction::Mul.spec_mnemonic() {
        Some(Instruction::Mul)
    } else if m == Instruction::Div.spec_mnemonic() {
        Some(Instruction::Div)
    } else if m == Instruction::Exit.spec_mnemonic() {
        Some(Instruction::Exit)
    } else if m == Instruction::Printout.spec_mnemonic() {
        Some(Instruction::Printout)
    } else if m == Instruction::Printstr.spec_mnemonic() {
        Some(Instruction::Printstr)
    } else {
        None
    }
}

pub open spec fn push_str_name() -> Seq<char> {
    seq!['P', 'u', 's', 'h', 'S', 't', 'r']
}

pub open spec fn break_name() -> Seq<char> {
    seq!['B', 'r', 'e', 'a', 'k']
}

pub open spec fn set_arg_spec(i: Instruction, v: Value) -> Instruction {
    match i {
        Instruction::Push(_) => Instruction::Push(v),
        other => other,
    }
}

/// `program` with the operand of the `PUSH` at `a` set to `v`.
pub open spec fn patch_one(program: Seq<Instruction>, a: i64, v: Value) -> Seq<Instruction> {
    if 0 <= a < program.len() {
        program.update(a as int, set_arg_spec(program[a as int], v))
    } else {
        program
    }
}

/// `program` with the operand of each `PUSH` at one of `addrs` set to `v`.
pub open spec fn patch(program: Seq<Instruction>, addrs: Seq<i64>, v: Value) -> Seq<Instruction>
    decreases addrs.len(),
{
    if addrs.len() == 0 {
        program
    } else {
        patch_one(patch(program, addrs.drop_last(), v), addrs.last(), v)
    }
}

pub proof fn lemma_patch_len(program: Seq<Instruction>, addrs: Seq<i64>, v: Value)
    ensures
        patch(program, addrs, v).len() == program.len(),
    decreases addrs.len(),
{
    if addrs.len() > 0 {
        lemma_patch_len(program, addrs.drop_last(), v);
    }
}

/// A line that stands for no instruction: blank, a comment, or a label.
pub open spec fn emits_nothing(line: Seq<char>) -> bool {
    let w = split_ws(line);
    w.len() == 0 || starts_with(w[0], ';') || ends_with(w[0], ':')
}

/// The address that the next instruction will have.
pub open spec fn next_addr(st: AsmState) -> i64 {
    st.program.len() as i64
}

/// Defines the label `name` at the next address: pending references to it
/// are patched and dropped.
pub open spec fn define_label(st: AsmState, name: Seq<char>) -> AsmState {
    let addr = next_addr(st);
    AsmState {
        labels: match last_index(st.labels, name) {
            Some(i) => st.labels.update(i, (name, addr)),
            None => st.labels.push((name, addr)),
        },
        relocs: match last_index(st.relocs, name) {
            Some(i) => st.relocs.remove(i),
            None => st.relocs,
        },
        breakpoints: st.breakpoints,
        names: st.names.insert(addr, name),
        program: match last_index(st.relocs, name) {
            Some(i) => patch(st.program, st.relocs[i].1, addr),
            None => st.program,
        },
    }
}

/// Appends a `PUSH` of the operand `a`: an integer, the address of a
/// defined label, or 0 with a pending reference to the label.
pub open spec fn push_operand(st: AsmState, a: Seq<char>) -> AsmState {
    match parse_int(a) {
        Some(v) => AsmState { program: st.program.push(Instruction::Push(v)), ..st },
        None => match last_index(st.labels, a) {
            Some(i) => AsmState {
                program: st.program.push(Instruction::Push(st.labels[i].1)),
                ..st
            },
            None => AsmState {
                relocs: match last_index(st.relocs, a) {
                    Some(i) => st.relocs.update(i, (a, st.relocs[i].1.push(next_addr(st)))),
                    None => st.relocs.push((a, seq![next_addr(st)])),
                },
                program: st.program.push(Instruction::Push(0)),
                ..st
            },
        },
    }
}

pub open spec fn instruction_step(st: AsmState, m: Seq<char>, arg: Option<Seq<char>>) -> Result<
    AsmState,
    AsmFault,
> {
    match instruction_named(m) {
        None => Err(AsmFault::NoSuchMnemonic(m)),
        Some(Instruction::Push(_)) => match arg {
            None => Err(AsmFault::PushExpectsArgument),
            Some(a) => Ok(push_operand(st, a)),
        },
        Some(i) => match arg {
            Some(a) => Err(AsmFault::UnexpectedArgument(a)),
            None => Ok(AsmState { program: st.program.push(i), ..st }),
        },
    }
}

pub open spec fn meta_step(st: AsmState, name: Seq<char>, arg: Option<Seq<char>>) -> Result<
    AsmState,
    AsmFault,
> {
    if name == push_str_name() && arg is Some {
        match string_literal(arg->0) {
            Err(e) => Err(e),
            Ok(lit) => Ok(AsmState { program: st.program + string_pushes(lit), ..st }),
        }
    } else if name == break_name() && arg is None {
        Ok(AsmState { breakpoints: st.breakpoints.insert(next_addr(st)), ..st })
    } else {
        Err(AsmFault::NoSuchMetainstruction(name))
    }
}

/// The effect of one line of text on the assembler's state.
pub open spec fn line_step(st: AsmState, line: Seq<char>) -> Result<AsmState, AsmFault> {
    let words = split_ws(line);
    if words.len() == 0 || starts_with(words[0], ';') {
        Ok(st)
    } else {
        let first = words[0];
        match operand(words) {
            Err(extra) => Err(AsmFault::TooManyArguments(extra)),
            Ok(arg) => if ends_with(first, ':') {
                match arg {
                    Some(a) => Err(AsmFault::TooManyArguments(a)),
                    None => Ok(define_label(st, first.drop_last())),
                }
            } else if starts_with(first, '@') {
                meta_step(st, first.drop_first(), arg)
            } else {
                instruction_step(st, first, arg)
            },
        }
    }
}

/// The state after the lines `lines`, or the 1-based number of the first
/// line in error and its error.
pub open spec fn run_lines(st: AsmState, lines: Seq<Seq<char>>) -> Result<AsmState, (nat, AsmFault)>
    decreases lines.len(),
{
    if lines.len() == 0 {
        Ok(st)
    } else {
        match run_lines(st, lines.drop_last()) {
            Err(e) => Err(e),
            Ok(s) => match line_step(s, lines.last()) {
                Ok(next) => Ok(next),
                Err(f) => Err((lines.len(), f)),
            },
        }
    }
}

/// An error on a line stops the assembly there: later lines change nothing.
proof fn lemma_run_lines_error(st: AsmState, lines: Seq<Seq<char>>, j: int)
    requires
        0 <= j <= lines.len(),
        run_lines(st, lines.take(j)) is Err,
    ensures
        run_lines(st, lines) == run_lines(st, lines.take(j)),
    decreases lines.len() - j,
{
    if j < lines.len() {
        assert(lines.drop_last().take(j) =~= lines.take(j));
        lemma_run_lines_error(st, lines.drop_last(), j);
    } else {
        assert(lines.take(j) =~= lines);
    }
}

/// The length of the first line of `s`.
pub open spec fn line_len(s: Seq<char>) -> nat
    decreases s.len(),
{
    if s.len() == 0 || s[0] == '\n' {
        0
    } else {
        1 + line_len(s.drop_first())
    }
}

/// The lines of a text: the pieces between line feeds, without an empty
/// piece after a final line feed.
pub open spec fn source_lines(s: Seq<char>) -> Seq<Seq<char>>
    decreases s.len(),
    via source_lines_decreases
{
    if s.len() == 0 {
        seq![]
    } else {
        let n = line_len(s);
        if n >= s.len() {
            seq![s]
        } else {
            seq![s.take(n as int)] + source_lines(s.skip(n + 1int))
        }
    }
}

pub proof fn lemma_line_len(s: Seq<char>)
    ensures
        line_len(s) <= s.len(),
        line_len(s) < s.len() ==> s[line_len(s) as int] == '\n',
        forall|k: int| 0 <= k < line_len(s) ==> #[trigger] s[k] != '\n',
    decreases s.len(),
{
    if s.len() > 0 && s[0] != '\n' {
        lemma_line_len(s.drop_first());
        assert forall|k: int| 0 <= k < line_len(s) implies #[trigger] s[k] != '\n' by {
            if k > 0 {
                assert(s[k] == s.drop_first()[k - 1]);
            }
        }
    }
}

#[via_fn]
proof fn source_lines_decreases(s: Seq<char>) {
    lemma_line_len(s);
}

/// Assembling the text `src` from the state `st`: every line in order; a
/// reference to a label that is still pending at the end is an error on the
/// last line.
pub open spec fn assemble_spec(st: AsmState, src: Seq<char>) -> Result<AsmState, (nat, AsmFault)> {
    let lines = source_lines(src);
    match run_lines(st, lines) {
        Err(e) => Err(e),
        Ok(end) => if end.relocs.len() > 0 {
            Err((lines.len(), AsmFault::UnresolvedLabels(end.relocs)))
        } else {
            Ok(end)
        },
    }
}

fn escape_code(code: char) -> (r: Result<char, AsmError>)
    ensures
        match r {
            Ok(c) => escape_of(code) == Some(c),
            Err(e) => escape_of(code) is None && e@ == AsmFault::UnknownEscape(code),
        },
{
    match code {
        'n' => Ok('\n'),
        't' => Ok('\t'),
        '0' => Ok('\0'),
        '\\' => Ok('\\'),
        _ => Err(AsmError::UnknownEscape(code)),
    }
}

/// The characters of the string literal `arg` with its escapes replaced,
/// followed by a NUL.
fn parse_str_lit(arg: &[char]) -> (r: Result<Vec<char>, AsmError>)
    ensures
        match r {
            Ok(v) => string_literal(arg@) == Ok::<Seq<char>, AsmFault>(v@),
            Err(e) => string_literal(arg@) == Err::<Seq<char>, AsmFault>(e@),
        },
{
    let n = arg.len();
    if n < 2 || arg[0] != '"' || arg[n - 1] != '"' {
        return Err(AsmError::NotAStringLiteral(string_from(arg)));
    }
    let ghost inner = arg@.subrange(1, n - 1);
    let mut chars: Vec<char> = Vec::new();
    let mut i: usize = 1;
    assert(inner.skip(0) =~= inner);
    while i < n - 1
        invariant
            1 <= i <= n - 1,
            n == arg@.len(),
            n >= 2,
            closed_literal(arg@),
            inner == arg@.subrange(1, n - 1),
            unescape(inner) == match unescape(inner.skip(i - 1)) {
                Ok(rest) => Ok(chars@ + rest),
                Err(e) => Err(e),
            },
        decreases n - i,
    {
        let ghost rest = inner.skip(i - 1);
        let c = arg[i];
        assert(rest[0] == c);
        if c == '\\' {
            if i + 1 >= n - 1 {
                assert(unescape(rest) == Err::<Seq<char>, AsmFault>(AsmFault::UnfinishedEscape));
                return Err(AsmError::UnfinishedEscape);
            }
            assert(rest[1] == arg@[i + 1]);
            let e = match escape_code(arg[i + 1]) {
                Ok(e) => e,
                Err(err) => {
                    assert(unescape(rest) == Err::<Seq<char>, AsmFault>(err@));
                    return Err(err);
                },
            };
            assert(rest.skip(2) =~= inner.skip(i + 1));
            assert(chars@.push(e) + unescape(inner.skip(i + 1))->Ok_0 =~= chars@ + (seq![e] + unescape(inner.skip(i + 1))->Ok_0));
            chars.push(e);
            i += 2;
        } else {
            assert(rest.drop_first() =~= inner.skip(i as int));
            assert(chars@.push(c) + unescape(inner.skip(i as int))->Ok_0 =~= chars@ + (seq![c] + unescape(inner.skip(i as int))->Ok_0));
            chars.push(c);
            i += 1;
        }
    }
    assert(inner.skip(i - 1) =~= Seq::<char>::empty());
    assert(chars@ + Seq::<char>::empty() =~= chars@);
    chars.push('\0');
    Ok(chars)
}

/// The instruction that the mnemonic `m` names, with operand 0 for `PUSH`.
fn lookup_mnemonic(m: &[char]) -> (r: Option<Instruction>)
    ensures
        r == instruction_named(m@),
{
    let all: [Instruction; 15] = [
        Instruction::Push(0),
        Instruction::Pop,
        Instruction::Dup,
        Instruction::Swap,
        Instruction::Jz,
        Instruction::Jnz,
        Instruction::Jmp,
        Instruction::Call,
        Instruction::Add,
        Instruction::Sub,
        Instruction::Mul,
        Instruction::Div,
        Instruction::Exit,
        Instruction::Printout,
        Instruction::Printstr,
    ];
    let mut k: usize = 0;
    while k < 15
        invariant
            k <= 15,
            all@ == seq![
                Instruction::Push(0),
                Instruction::Pop,
                Instruction::Dup,
                Instruction::Swap,
                Instruction::Jz,
                Instruction::Jnz,
                Instruction::Jmp,
                Instruction::Call,
                Instruction::Add,
                Instruction::Sub,
                Instruction::Mul,
                Instruction::Div,
                Instruction::Exit,
                Instruction::Printout,
                Instruction::Printstr,
            ],
            forall|j: int| 0 <= j < k ==> m@ != (#[trigger] all@[j]).spec_mnemonic(),
        decreases 15 - k,
    {
        if chars_eq(m, all[k].mnemonic()) {
            return Some(all[k]);
        }
        k += 1;
    }
    assert(m@ != all@[0].spec_mnemonic());
    assert(m@ != all@[1].spec_mnemonic());
    assert(m@ != all@[2].spec_mnemonic());
    assert(m@ != all@[3].spec_mnemonic());
    assert(m@ != all@[4].spec_mnemonic());
    assert(m@ != all@[5].spec_mnemonic());
    assert(m@ != all@[6].spec_mnemonic());
    assert(m@ != all@[7].spec_mnemonic());
    assert(m@ != all@[8].spec_mnemonic());
    assert(m@ != all@[9].spec_mnemonic());
    assert(m@ != all@[10].spec_mnemonic());
    assert(m@ != all@[11].spec_mnemonic());
    assert(m@ != all@[12].spec_mnemonic());
    assert(m@ != all@[13].spec_mnemonic());
    assert(m@ != all@[14].spec_mnemonic());
    None
}

/// The operand of the line whose words are `words`, or the word that makes
/// the line too long.
fn line_operand(words: &Vec<Vec<char>>) -> (r: Result<Option<Vec<char>>, Vec<char>>)
    ensures
        match r {
            Ok(Some(a)) => operand(words_view(words@)) == Ok::<Option<Seq<char>>, Seq<char>>(
                Some(a@),
            ),
            Ok(None) => operand(words_view(words@)) == Ok::<Option<Seq<char>>, Seq<char>>(None),
            Err(w) => operand(words_view(words@)) == Err::<Option<Seq<char>>, Seq<char>>(w@),
        },
{
    let ghost wv = words_view(words@);
    let n = words.len();
    assert(wv.len() == n);
    if n < 2 {
        return Ok(None);
    }
    assert(wv[1] == words@[1]@);
    let m = words[1].len();
    if m > 0 && words[1][0] == ';' {
        return Ok(None);
    }
    if m > 0 && words[1][0] == '"' && !(m >= 2 && words[1][m - 1] == '"') {
        let mut tail: Vec<char> = Vec::new();
        let mut k: usize = 2;
        loop
            invariant_except_break
                2 <= k <= n,
                n == wv.len(),
                wv == words_view(words@),
                join_quoted(wv, 2) == (tail@ + join_quoted(wv, k as int).0, join_quoted(
                    wv,
                    k as int,
                ).1),
            ensures
                2 <= k <= n,
                join_quoted(wv, 2) == (tail@, k as int),
            decreases n - k,
        {
            if k >= n {
                assert(tail@ + Seq::<char>::empty() =~= tail@);
                break ;
            }
            let ghost before = tail@;
            assert(wv[k as int] == words@[k as int]@);
            let mut w = slice_to_vec(words[k].as_slice());
            let len = w.len();
            let closes = len > 0 && w[len - 1] == '"';
            tail.push(' ');
            tail.append(&mut w);
            assert(tail@ =~= before + (seq![' '] + wv[k as int]));
            k += 1;
            if closes {
                break ;
            }
            assert(tail@ + join_quoted(wv, k as int).0 =~= before + (seq![' '] + wv[k - 1]
                + join_quoted(wv, k as int).0));
        }
        if k < n {
            assert(wv[k as int] == words@[k as int]@);
            if !(words[k].len() > 0 && words[k][0] == ';') {
                return Err(slice_to_vec(words[k].as_slice()));
            }
        }
        let mut arg = slice_to_vec(words[1].as_slice());
        arg.append(&mut tail);
        return Ok(Some(arg));
    }
    if n > 2 {
        assert(wv[2] == words@[2]@);
        if !(words[2].len() > 0 && words[2][0] == ';') {
            return Err(slice_to_vec(words[2].as_slice()));
        }
    }
    Ok(Some(slice_to_vec(words[1].as_slice())))
}

/// Sets the operand of each `PUSH` at one of `addrs` to `v`.
fn patch_refs(instructions: &mut Vec<Instruction>, addrs: &Vec<i64>, v: Value)
    ensures
        final(instructions)@ == patch(old(instructions)@, addrs@, v),
{
    let mut k: usize = 0;
    while k < addrs.len()
        invariant
            k <= addrs@.len(),
            instructions@ == patch(old(instructions)@, addrs@.take(k as int), v),
        decreases addrs@.len() - k,
    {
        let a = addrs[k];
        assert(addrs@.take(k + 1).drop_last() =~= addrs@.take(k as int));
        if a >= 0 && (a as u64) < (instructions.len() as u64) {
            let mut ins = instructions[a as usize];
            ins.set_arg(v);
            instructions.set(a as usize, ins);
        }
        k += 1;
    }
    assert(addrs@.take(k as int) =~= addrs@);
}

/// The lines of `s`: the pieces between line feeds, without an empty piece
/// after a final line feed.
fn split_lines(s: &[char]) -> (r: Vec<Vec<char>>)
    ensures
        words_view(r@) == source_lines(s@),
{
    let mut lines: Vec<Vec<char>> = Vec::new();
    let mut i: usize = 0;
    let n = s.len();
    assert(s@.skip(0) =~= s@);
    assert(words_view(lines@) =~= Seq::<Seq<char>>::empty());
    while i < n
        invariant
            i <= n,
            n == s@.len(),
            words_view(lines@) + source_lines(s@.skip(i as int)) == source_lines(s@),
        decreases n - i,
    {
        let ghost rest = s@.skip(i as int);
        let mut j: usize = i;
        let mut line: Vec<char> = Vec::new();
        while j < n && s[j] != '\n'
            invariant
                i <= j <= n,
                n == s@.len(),
                line@ == s@.subrange(i as int, j as int),
                line_len(rest) == (j - i) + line_len(s@.skip(j as int)),
            decreases n - j,
        {
            assert(s@.skip(j as int).drop_first() =~= s@.skip(j + 1));
            line.push(s[j]);
            j += 1;
            assert(line@ =~= s@.subrange(i as int, j as int));
        }
        assert(line_len(rest) == j - i);
        let ghost before = words_view(lines@);
        lines.push(line);
        assert(words_view(lines@) =~= before.push(line@));
        if j == n {
            assert(rest =~= line@);
            assert(source_lines(rest) == seq![rest]);
            assert(before.push(line@) + source_lines(s@.skip(n as int)) =~= before + source_lines(
                rest,
            ));
            i = n;
        } else {
            assert(rest.take((j - i) as int) =~= line@);
            assert(rest.skip((j - i) + 1) =~= s@.skip(j + 1));
            assert(before.push(line@) + source_lines(s@.skip(j + 1)) =~= before + (seq![line@]
                + source_lines(s@.skip(j + 1))));
            i = j + 1;
        }
    }
    assert(s@.skip(i as int) =~= Seq::<char>::empty());
    assert(words_view(lines@) + Seq::<Seq<char>>::empty() =~= words_view(lines@));
    lines
}

/// The state before any line has been read.
pub open spec fn initial_state() -> AsmState {
    AsmState {
        labels: seq![],
        relocs: seq![],
        breakpoints: Set::empty(),
        names: Map::empty(),
        program: seq![],
    }
}

pub open spec fn opt_view(a: Option<Vec<char>>) -> Option<Seq<char>> {
    match a {
        Some(v) => Some(v@),
        None => None,
    }
}

pub open spec fn emitted(e: Option<Vec<Instruction>>) -> Seq<Instruction> {
    match e {
        Some(v) => v@,
        None => seq![],
    }
}

/// A two-pass assembler in one pass: a reference to a label that is not yet
/// defined is recorded and patched when the label is defined.
pub struct AsmParser {
    filepath: String,
    lineno: usize,
    labels: Vec<(String, i64)>,
    relocs: Vec<(String, Vec<i64>)>,
    debug_info: DebugInfo,
}

impl AsmParser {
    pub closed spec fn spec_labels(&self) -> Seq<(Seq<char>, i64)> {
        labels_view(self.labels@)
    }

    pub closed spec fn spec_relocs(&self) -> Seq<(Seq<char>, Seq<i64>)> {
        refs_view(self.relocs@)
    }

    pub closed spec fn spec_debug(&self) -> DebugInfo {
        self.debug_info
    }

    pub closed spec fn spec_filepath(&self) -> Seq<char> {
        self.filepath@
    }

    /// The assembler's state with `program` as the program so far.
    pub open spec fn state(&self, program: Seq<Instruction>) -> AsmState {
        AsmState {
            labels: self.spec_labels(),
            relocs: self.spec_relocs(),
            breakpoints: self.spec_debug().spec_breakpoints(),
            names: self.spec_debug().spec_label_names(),
            program,
        }
    }

    /// An assembler for the file at `filepath`, which names the file in errors.
    pub fn new(filepath: String) -> (r: Self)
        ensures
            r.state(seq![]) == initial_state(),
            r.spec_filepath() == filepath@,
            r.spec_debug().is_empty(),
    {
        let r = AsmParser {
            filepath,
            lineno: 0,
            labels: Vec::new(),
            relocs: Vec::new(),
            debug_info: DebugInfo::new(),
        };
        assert(r.spec_labels() =~= Seq::<(Seq<char>, i64)>::empty());
        assert(r.spec_relocs() =~= Seq::<(Seq<char>, Seq<i64>)>::empty());
        assert(r.spec_debug().spec_label_names() =~= Map::<i64, Seq<char>>::empty());
        r
    }

    /// The debugging records gathered while assembling.
    pub fn debug_info(self) -> (r: DebugInfo)
        ensures
            r == self.spec_debug(),
    {
        self.debug_info
    }

    fn parse_error(&self, err: AsmError) -> (r: ParseError)
        ensures
            r == (ParseError::Parse { err, file: self.filepath, lineno: self.lineno }),
    {
        ParseError::Parse { err, file: self.filepath.clone(), lineno: self.lineno }
    }

    fn label_index(&self, name: &String) -> (r: Option<usize>)
        ensures
            match r {
                Some(i) => last_index(self.spec_labels(), name@) == Some(i as int),
                None => last_index(self.spec_labels(), name@) is None,
            },
    {
        let ghost lv = self.spec_labels();
        let mut i = self.labels.len();
        assert(lv.take(i as int) =~= lv);
        while i > 0
            invariant
                i <= lv.len(),
                lv == self.spec_labels(),
                last_index(lv, name@) == last_index(lv.take(i as int), name@),
            decreases i,
        {
            assert(lv[i - 1] == (self.labels@[i - 1].0@, self.labels@[i - 1].1));
            assert(lv.take(i as int).drop_last() =~= lv.take(i - 1));
            if self.labels[i - 1].0 == *name {
                return Some(i - 1);
            }
            i -= 1;
        }
        None
    }

    fn reloc_index(&self, name: &String) -> (r: Option<usize>)
        ensures
            match r {
                Some(i) => last_index(self.spec_relocs(), name@) == Some(i as int),
                None => last_index(self.spec_relocs(), name@) is None,
            },
    {
        let ghost rv = self.spec_relocs();
        let mut i = self.relocs.len();
        assert(rv.take(i as int) =~= rv);
        while i > 0
            invariant
                i <= rv.len(),
                rv == self.spec_relocs(),
                last_index(rv, name@) == last_index(rv.take(i as int), name@),
            decreases i,
        {
            assert(rv[i - 1] == (self.relocs@[i - 1].0@, self.relocs@[i - 1].1@));
            assert(rv.take(i as int).drop_last() =~= rv.take(i - 1));
            if self.relocs[i - 1].0 == *name {
                return Some(i - 1);
            }
            i -= 1;
        }
        None
    }

    /// The address of `label` if it is defined; otherwise 0, and the `PUSH`
    /// at `instruction_addr` is recorded as a reference to it.
    fn label_addr(&mut self, label: String, instruction_addr: i64) -> (r: i64)
        ensures
            final(self).spec_filepath() == old(self).spec_filepath(),
            final(self).lineno == old(self).lineno,
            final(self).spec_debug() == old(self).spec_debug(),
            final(self).spec_labels() == old(self).spec_labels(),
            match last_index(old(self).spec_labels(), label@) {
                Some(i) => r == old(self).spec_labels()[i].1 && final(self).spec_relocs() == old(
                    self,
                ).spec_relocs(),
                None => r == 0 && final(self).spec_relocs() == match last_index(
                    old(self).spec_relocs(),
                    label@,
                ) {
                    Some(i) => old(self).spec_relocs().update(
                        i,
                        (label@, old(self).spec_relocs()[i].1.push(instruction_addr)),
                    ),
                    None => old(self).spec_relocs().push((label@, seq![instruction_addr])),
                },
            },
    {
        proof {
            lemma_last_index(self.spec_labels(), label@);
            lemma_last_index(self.spec_relocs(), label@);
        }
        if let Some(i) = self.label_index(&label) {
            assert(self.spec_labels()[i as int] == (self.labels@[i as int].0@, self.labels@[i as int].1));
            return self.labels[i].1;
        }
        let ghost rv = self.spec_relocs();
        match self.reloc_index(&label) {
            Some(i) => {
                let (name, mut addrs) = self.relocs.remove(i);
                assert(name@ == label@);
                addrs.push(instruction_addr);
                self.relocs.insert(i, (name, addrs));
                assert(self.spec_relocs() =~= rv.update(
                    i as int,
                    (label@, rv[i as int].1.push(instruction_addr)),
                ));
            },
            None => {
                let ghost lv = label@;
                let mut addrs: Vec<i64> = Vec::new();
                addrs.push(instruction_addr);
                assert(addrs@ =~= seq![instruction_addr]);
                self.relocs.push((label, addrs));
                assert(self.spec_relocs() =~= rv.push((lv, seq![instruction_addr])));
            },
        }
        0
    }

    /// Defines the label `name` at the next address of `instructions`.
    fn bind_label(&mut self, name: String, instructions: &mut Vec<Instruction>)
        ensures
            final(self).state(final(instructions)@) == define_label(
                old(self).state(old(instructions)@),
                name@,
            ),
            final(instructions)@.len() == old(instructions)@.len(),
            final(self).spec_filepath() == old(self).spec_filepath(),
            final(self).lineno == old(self).lineno,
            final(self).spec_debug().spec_verbose() == old(self).spec_debug().spec_verbose(),
    {
        let addr = instructions.len() as i64;
        let ghost st = self.state(instructions@);
        proof {
            lemma_last_index(st.relocs, name@);
            lemma_last_index(st.labels, name@);
        }
        if let Some(i) = self.reloc_index(&name) {
            let (_, addrs) = self.relocs.remove(i);
            assert(addrs@ == st.relocs[i as int].1);
            patch_refs(instructions, &addrs, addr);
            proof {
                lemma_patch_len(st.program, addrs@, addr);
            }
            assert(self.spec_relocs() =~= st.relocs.remove(i as int));
        }
        match self.label_index(&name) {
            Some(i) => {
                self.labels.set(i, (name.clone(), addr));
                assert(self.spec_labels() =~= st.labels.update(i as int, (name@, addr)));
            },
            None => {
                self.labels.push((name.clone(), addr));
                assert(self.spec_labels() =~= st.labels.push((name@, addr)));
            },
        }
        self.debug_info.add_label(addr, name);
    }

    /// The instruction named `mnemonic`, with its operand `arg`, to stand at
    /// `instruction_addr`.
    fn parse_instruction(
        &mut self,
        mnemonic: &[char],
        arg: Option<Vec<char>>,
        instruction_addr: i64,
        Ghost(program): Ghost<Seq<Instruction>>,
    ) -> (r: Result<Instruction, AsmError>)
        requires
            program.len() as i64 == instruction_addr,
        ensures
            match r {
                Ok(i) => instruction_step(old(self).state(program), mnemonic@, opt_view(arg)) == Ok::<
                    AsmState,
                    AsmFault,
                >(final(self).state(program.push(i))),
                Err(e) => instruction_step(old(self).state(program), mnemonic@, opt_view(arg))
                    == Err::<AsmState, AsmFault>(e@) && final(self).spec_relocs() == old(
                    self,
                ).spec_relocs(),
            },
            final(self).spec_labels() == old(self).spec_labels(),
            final(self).spec_filepath() == old(self).spec_filepath(),
            final(self).lineno == old(self).lineno,
            final(self).spec_debug() == old(self).spec_debug(),
    {
        match lookup_mnemonic(mnemonic) {
            None => Err(AsmError::NoSuchMnemonic(string_from(mnemonic))),
            Some(Instruction::Push(_)) => match arg {
                None => Err(AsmError::PushExpectsArgument),
                Some(a) => {
                    let v = match parse_integer(a.as_slice()) {
                        Some(v) => v,
                        None => self.label_addr(string_from(a.as_slice()), instruction_addr),
                    };
                    Ok(Instruction::Push(v))
                },
            },
            Some(i) => match arg {
                Some(a) => Err(AsmError::UnexpectedArgument(string_from(a.as_slice()))),
                None => Ok(i),
            },
        }
    }

    /// The instructions that the metainstruction `name` with the operand
    /// `arg` stands for, at `instruction_addr`.
    fn parse_metainstruction(
        &mut self,
        name: &[char],
        arg: Option<Vec<char>>,
        instruction_addr: i64,
        Ghost(program): Ghost<Seq<Instruction>>,
    ) -> (r: Result<Vec<Instruction>, AsmError>)
        requires
            program.len() as i64 == instruction_addr,
        ensures
            match r {
                Ok(v) => meta_step(old(self).state(program), name@, opt_view(arg)) == Ok::<
                    AsmState,
                    AsmFault,
                >(final(self).state(program + v@)),
                Err(e) => meta_step(old(self).state(program), name@, opt_view(arg)) == Err::<
                    AsmState,
                    AsmFault,
                >(e@) && final(self).spec_debug() == old(self).spec_debug(),
            },
            final(self).spec_labels() == old(self).spec_labels(),
            final(self).spec_relocs() == old(self).spec_relocs(),
            final(self).spec_filepath() == old(self).spec_filepath(),
            final(self).lineno == old(self).lineno,
            final(self).spec_debug().spec_verbose() == old(self).spec_debug().spec_verbose(),
    {
        proof {
            reveal_strlit("PushStr");
            reveal_strlit("Break");
            assert("PushStr"@ =~= push_str_name());
            assert("Break"@ =~= break_name());
        }
        let is_push_str = chars_eq(name, "PushStr");
        let is_break = chars_eq(name, "Break");
        assert(is_push_str == (name@ == push_str_name()));
        assert(is_break == (name@ == break_name()));
        if is_push_str && arg.is_some() {
            let a = arg.unwrap();
            let lit = parse_str_lit(a.as_slice())?;
            let n = lit.len();
            let mut pushes: Vec<Instruction> = Vec::new();
            let mut k = n;
            while k > 0
                invariant
                    k <= n,
                    n == lit@.len(),
                    pushes@ == string_pushes(lit@).take(n - k),
                decreases k,
            {
                k -= 1;
                pushes.push(Instruction::Push(lit[k] as i64));
                assert(pushes@ =~= string_pushes(lit@).take(n - k));
            }
            assert(pushes@ =~= string_pushes(lit@));
            assert(self.state(program + pushes@) == AsmState {
                program: program + string_pushes(lit@),
                ..self.state(program)
            });
            Ok(pushes)
        } else if is_break && arg.is_none() {
            self.debug_info.add_breakpoint(instruction_addr);
            assert(self.state(program + Seq::<Instruction>::empty()) =~~= AsmState {
                breakpoints: old(self).state(program).breakpoints.insert(instruction_addr),
                ..old(self).state(program)
            });
            Ok(Vec::new())
        } else {
            Err(AsmError::NoSuchMetainstruction(string_from(name)))
        }
    }

    /// Reads one line: a label is bound (patching `instructions`), and the
    /// instructions that the line stands for are returned.
    fn parse_line(&mut self, line: &[char], instructions: &mut Vec<Instruction>) -> (r: Result<
        Option<Vec<Instruction>>,
        AsmError,
    >)
        ensures
            match r {
                Ok(e) => {
                    &&& line_step(old(self).state(old(instructions)@), line@) == Ok::<
                        AsmState,
                        AsmFault,
                    >(final(self).state(final(instructions)@ + emitted(e)))
                    &&& final(instructions)@.len() == old(instructions)@.len()
                    &&& (e is None <==> emits_nothing(line@))
                },
                Err(e) => {
                    &&& line_step(old(self).state(old(instructions)@), line@) == Err::<
                        AsmState,
                        AsmFault,
                    >(e@)
                    &&& final(instructions)@ == old(instructions)@
                    &&& final(self).state(seq![]) == old(self).state(seq![])
                },
            },
            final(self).spec_filepath() == old(self).spec_filepath(),
            final(self).lineno == old(self).lineno,
            final(self).spec_debug().spec_verbose() == old(self).spec_debug().spec_verbose(),
    {
        let words = split_whitespace(line);
        let ghost wv = words_view(words@);
        assert(wv.len() == words@.len());
        if words.len() == 0 {
            assert(instructions@ + Seq::<Instruction>::empty() =~= instructions@);
            return Ok(None);
        }
        assert(wv[0] == words@[0]@);
        let first = &words[0];
        let n = first.len();
        if n > 0 && first[0] == ';' {
            assert(instructions@ + Seq::<Instruction>::empty() =~= instructions@);
            return Ok(None);
        }
        let arg = match line_operand(&words) {
            Err(w) => {
                return Err(AsmError::TooManyArguments(string_from(w.as_slice())));
            },
            Ok(a) => a,
        };
        let addr = instructions.len() as i64;
        if n > 0 && first[n - 1] == ':' {
            if let Some(a) = arg {
                return Err(AsmError::TooManyArguments(string_from(a.as_slice())));
            }
            let name = slice_subrange(first.as_slice(), 0, n - 1);
            assert(name@ =~= wv[0].drop_last());
            self.bind_label(string_from(name), instructions);
            assert(instructions@ + Seq::<Instruction>::empty() =~= instructions@);
            Ok(None)
        } else if n > 0 && first[0] == '@' {
            let name = slice_subrange(first.as_slice(), 1, n);
            assert(name@ =~= wv[0].drop_first());
            match self.parse_metainstruction(name, arg, addr, Ghost(instructions@)) {
                Ok(v) => Ok(Some(v)),
                Err(e) => Err(e),
            }
        } else {
            match self.parse_instruction(first.as_slice(), arg, addr, Ghost(instructions@)) {
                Ok(i) => {
                    let mut v: Vec<Instruction> = Vec::new();
                    v.push(i);
                    assert(instructions@ + v@ =~= instructions@.push(i));
                    Ok(Some(v))
                },
                Err(e) => Err(e),
            }
        }
    }

    /// Assembles the program text `source`, line by line. Fails on the first
    /// line in error, or, when a label that is used is never defined, on the
    /// last line.
    pub fn assemble(&mut self, source: &str) -> (r: ParseResult<Vec<Instruction>>)
        ensures
            match r {
                Ok(p) => assemble_spec(old(self).state(seq![]), source@) == Ok::<
                    AsmState,
                    (nat, AsmFault),
                >(final(self).state(p@)),
                Err(ParseError::Parse { err, file, lineno }) => file@ == old(self).spec_filepath()
                    && assemble_spec(old(self).state(seq![]), source@) == Err::<
                    AsmState,
                    (nat, AsmFault),
                >((lineno as nat, err@)),
                Err(ParseError::Io(_)) => false,
            },
            final(self).spec_filepath() == old(self).spec_filepath(),
            final(self).spec_debug().spec_verbose() == old(self).spec_debug().spec_verbose(),
    {
        let chars = chars_of(source);
        let lines = split_lines(chars.as_slice());
        let ghost lv = words_view(lines@);
        let ghost st0 = self.state(seq![]);
        let mut instructions: Vec<Instruction> = Vec::new();
        let mut k: usize = 0;
        assert(lv.take(0) =~= Seq::<Seq<char>>::empty());
        while k < lines.len()
            invariant
                k <= lines@.len(),
                lv == words_view(lines@),
                lv == source_lines(source@),
                st0 == old(self).state(seq![]),
                run_lines(st0, lv.take(k as int)) == Ok::<AsmState, (nat, AsmFault)>(
                    self.state(instructions@),
                ),
                self.spec_filepath() == old(self).spec_filepath(),
                self.spec_debug().spec_verbose() == old(self).spec_debug().spec_verbose(),
            decreases lines@.len() - k,
        {
            self.lineno = k + 1;
            assert(lv[k as int] == lines@[k as int]@);
            assert(lv.take(k + 1).drop_last() =~= lv.take(k as int));
            match self.parse_line(lines[k].as_slice(), &mut instructions) {
                Ok(Some(mut more)) => {
                    instructions.append(&mut more);
                },
                Ok(None) => {},
                Err(e) => {
                    assert(lv.take(k + 1).len() == k + 1);
                    proof {
                        lemma_run_lines_error(st0, lv, k + 1);
                    }
                    return Err(self.parse_error(e));
                },
            }
            k += 1;
        }
        assert(lv.take(k as int) =~= lv);
        if self.relocs.len() > 0 {
            self.lineno = lines.len();
            let mut pending: Vec<(String, Vec<i64>)> = Vec::new();
            std::mem::swap(&mut pending, &mut self.relocs);
            return Err(self.parse_error(AsmError::UnresolvedLabels(pending)));
        }
        Ok(instructions)
    }

}

} // verus!
