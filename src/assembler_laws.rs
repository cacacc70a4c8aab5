//! Laws of the assembler: how labels are resolved, and that a program's
//! listing assembles back to the program.
use crate::assembler::{
    instruction_step, assemble_spec, define_label, initial_state, instruction_named, last_index, lemma_last_index,
    lemma_line_len, line_len, line_step, next_addr, operand, run_lines, source_lines, starts_with,
    ends_with, AsmFault, AsmState,
};
use crate::instruction::Instruction;
use crate::text::{
    all_digits, digits_value, has_sign, is_digit, is_space, magnitude, parse_int, split_ws,
    word_len,
};
use vstd::prelude::*;

verus! {

pub open spec fn has_key<V>(e: Seq<(Seq<char>, V)>, k: Seq<char>) -> bool {
    exists|i: int| 0 <= i < e.len() && (#[trigger] e[i]).0 == k
}

pub open spec fn unique_keys<V>(e: Seq<(Seq<char>, V)>) -> bool {
    forall|i: int, j: int|
        0 <= i < e.len() && 0 <= j < e.len() && (#[trigger] e[i]).0 == (#[trigger] e[j]).0 ==> i
            == j
}

/// The line defines the label `k`.
pub open spec fn defines(line: Seq<char>, k: Seq<char>) -> bool {
    let w = split_ws(line);
    &&& w.len() > 0
    &&& !starts_with(w[0], ';')
    &&& ends_with(w[0], ':')
    &&& w[0].drop_last() == k
}

/// The line is a `PUSH` whose operand is the label `k`.
pub open spec fn references(line: Seq<char>, k: Seq<char>) -> bool {
    let w = split_ws(line);
    &&& w.len() > 0
    &&& w[0] == Instruction::Push(0).spec_mnemonic()
    &&& operand(w) == Ok::<Option<Seq<char>>, Seq<char>>(Some(k))
    &&& parse_int(k) is None
}

pub open spec fn defined_in(lines: Seq<Seq<char>>, k: Seq<char>) -> bool {
    exists|j: int| 0 <= j < lines.len() && defines(#[trigger] lines[j], k)
}

pub open spec fn referenced_in(lines: Seq<Seq<char>>, k: Seq<char>) -> bool {
    exists|j: int| 0 <= j < lines.len() && references(#[trigger] lines[j], k)
}

/// What the assembler's tables say about the lines read so far: the labels
/// are those defined; a pending reference is to a label used and not
/// defined, and every such label has one, recorded once.
pub open spec fn tables_match(st: AsmState, lines: Seq<Seq<char>>) -> bool {
    &&& unique_keys(st.labels)
    &&& unique_keys(st.relocs)
    &&& forall|k: Seq<char>| #[trigger] has_key(st.labels, k) <==> defined_in(lines, k)
    &&& forall|k: Seq<char>|
        #[trigger] has_key(st.relocs, k) ==> !defined_in(lines, k) && referenced_in(lines, k)
    &&& forall|k: Seq<char>|
        referenced_in(lines, k) && !defined_in(lines, k) ==> #[trigger] has_key(st.relocs, k)
}

proof fn lemma_lines_push(lines: Seq<Seq<char>>, line: Seq<char>)
    ensures
        forall|k: Seq<char>|
            #[trigger] defined_in(lines.push(line), k) == (defined_in(lines, k) || defines(line, k)),
        forall|k: Seq<char>|
            #[trigger] referenced_in(lines.push(line), k) == (referenced_in(lines, k) || references(
                line,
                k,
            )),
{
    let ls = lines.push(line);
    assert forall|k: Seq<char>| #[trigger]
        defined_in(ls, k) == (defined_in(lines, k) || defines(line, k)) by {
        if defined_in(ls, k) {
            let j = choose|j: int| 0 <= j < ls.len() && defines(#[trigger] ls[j], k);
            if j < lines.len() {
                assert(ls[j] == lines[j]);
            }
        }
        if defined_in(lines, k) {
            let j = choose|j: int| 0 <= j < lines.len() && defines(#[trigger] lines[j], k);
            assert(ls[j] == lines[j]);
        }
        if defines(line, k) {
            assert(ls[lines.len() as int] == line);
        }
    }
    assert forall|k: Seq<char>| #[trigger]
        referenced_in(ls, k) == (referenced_in(lines, k) || references(line, k)) by {
        if referenced_in(ls, k) {
            let j = choose|j: int| 0 <= j < ls.len() && references(#[trigger] ls[j], k);
            if j < lines.len() {
                assert(ls[j] == lines[j]);
            }
        }
        if referenced_in(lines, k) {
            let j = choose|j: int| 0 <= j < lines.len() && references(#[trigger] lines[j], k);
            assert(ls[j] == lines[j]);
        }
        if references(line, k) {
            assert(ls[lines.len() as int] == line);
        }
    }
}

proof fn lemma_push_key<V>(e: Seq<(Seq<char>, V)>, k2: Seq<char>, v: V)
    requires
        unique_keys(e),
        !has_key(e, k2),
    ensures
        unique_keys(e.push((k2, v))),
        forall|k: Seq<char>| #[trigger] has_key(e.push((k2, v)), k) == (has_key(e, k) || k == k2),
{
    let e2 = e.push((k2, v));
    assert forall|k: Seq<char>| #[trigger] has_key(e2, k) == (has_key(e, k) || k == k2) by {
        if has_key(e2, k) {
            let i = choose|i: int| 0 <= i < e2.len() && (#[trigger] e2[i]).0 == k;
            if i < e.len() {
                assert(e2[i] == e[i]);
            }
        }
        if has_key(e, k) {
            let i = choose|i: int| 0 <= i < e.len() && (#[trigger] e[i]).0 == k;
            assert(e2[i] == e[i]);
        }
        if k == k2 {
            assert(e2[e.len() as int].0 == k2);
        }
    }
    assert forall|i: int, j: int|
        0 <= i < e2.len() && 0 <= j < e2.len() && (#[trigger] e2[i]).0 == (#[trigger] e2[j]).0
        implies i == j by {
        if i < e.len() && j < e.len() {
            assert(e2[i] == e[i] && e2[j] == e[j]);
        } else if i < e.len() {
            assert(e2[i] == e[i]);
        } else if j < e.len() {
            assert(e2[j] == e[j]);
        }
    }
}

proof fn lemma_update_key<V>(e: Seq<(Seq<char>, V)>, i: int, v: V)
    requires
        0 <= i < e.len(),
        unique_keys(e),
    ensures
        unique_keys(e.update(i, (e[i].0, v))),
        forall|k: Seq<char>| #[trigger] has_key(e.update(i, (e[i].0, v)), k) == has_key(e, k),
{
    let e2 = e.update(i, (e[i].0, v));
    assert forall|k: Seq<char>| #[trigger] has_key(e2, k) == has_key(e, k) by {
        if has_key(e2, k) {
            let j = choose|j: int| 0 <= j < e2.len() && (#[trigger] e2[j]).0 == k;
            assert(e[j].0 == e2[j].0);
        }
        if has_key(e, k) {
            let j = choose|j: int| 0 <= j < e.len() && (#[trigger] e[j]).0 == k;
            assert(e[j].0 == e2[j].0);
        }
    }
    assert forall|a: int, b: int|
        0 <= a < e2.len() && 0 <= b < e2.len() && (#[trigger] e2[a]).0 == (#[trigger] e2[b]).0
        implies a == b by {
        assert(e[a].0 == e2[a].0 && e[b].0 == e2[b].0);
    }
}

proof fn lemma_remove_key<V>(e: Seq<(Seq<char>, V)>, i: int)
    requires
        0 <= i < e.len(),
        unique_keys(e),
    ensures
        unique_keys(e.remove(i)),
        forall|k: Seq<char>| #[trigger] has_key(e.remove(i), k) == (has_key(e, k) && k != e[i].0),
{
    let e2 = e.remove(i);
    assert forall|k: Seq<char>| #[trigger] has_key(e2, k) == (has_key(e, k) && k != e[i].0) by {
        if has_key(e2, k) {
            let j = choose|j: int| 0 <= j < e2.len() && (#[trigger] e2[j]).0 == k;
            if j < i {
                assert(e2[j] == e[j]);
            } else {
                assert(e2[j] == e[j + 1]);
            }
        }
        if has_key(e, k) && k != e[i].0 {
            let j = choose|j: int| 0 <= j < e.len() && (#[trigger] e[j]).0 == k;
            if j < i {
                assert(e2[j] == e[j]);
            } else {
                assert(e2[j - 1] == e[j]);
            }
        }
    }
    assert forall|a: int, b: int|
        0 <= a < e2.len() && 0 <= b < e2.len() && (#[trigger] e2[a]).0 == (#[trigger] e2[b]).0
        implies a == b by {
        let a1 = if a < i {
            a
        } else {
            a + 1
        };
        let b1 = if b < i {
            b
        } else {
            b + 1
        };
        assert(e2[a] == e[a1] && e2[b] == e[b1]);
    }
}

proof fn lemma_has_key_last_index<V>(e: Seq<(Seq<char>, V)>, k: Seq<char>)
    ensures
        has_key(e, k) <==> last_index(e, k) is Some,
{
    lemma_last_index(e, k);
    if has_key(e, k) {
        let i = choose|i: int| 0 <= i < e.len() && (#[trigger] e[i]).0 == k;
        assert(e[i].0 == k);
    }
    if last_index(e, k) is Some {
        let i = last_index(e, k)->0;
        assert(e[i].0 == k);
    }
}

proof fn lemma_line_step_tables(st: AsmState, lines: Seq<Seq<char>>, line: Seq<char>)
    requires
        tables_match(st, lines),
        line_step(st, line) is Ok,
    ensures
        tables_match(line_step(st, line)->Ok_0, lines.push(line)),
{
    let st2 = line_step(st, line)->Ok_0;
    let ls = lines.push(line);
    lemma_lines_push(lines, line);
    let w = split_ws(line);
    let push_name = Instruction::Push(0).spec_mnemonic();
    if w.len() == 0 || starts_with(w[0], ';') {
        assert forall|k: Seq<char>| !defines(line, k) && !references(line, k) by {}
        assert(st2 == st);
    } else {
        let first = w[0];
        let arg = operand(w)->Ok_0;
        if ends_with(first, ':') {
            let name = first.drop_last();
            assert(st2 == define_label(st, name));
            assert(first != push_name);
            assert forall|k: Seq<char>| defines(line, k) == (k == name) && !references(line, k) by {}
            lemma_has_key_last_index(st.labels, name);
            lemma_has_key_last_index(st.relocs, name);
            lemma_last_index(st.labels, name);
            lemma_last_index(st.relocs, name);
            match last_index(st.labels, name) {
                Some(i) => {
                    lemma_update_key(st.labels, i, next_addr(st));
                },
                None => {
                    lemma_push_key(st.labels, name, next_addr(st));
                    assert forall|k: Seq<char>| #[trigger]
                        has_key(st2.labels, k) <==> defined_in(ls, k) by {}
                },
            }
            match last_index(st.relocs, name) {
                Some(i) => {
                    lemma_remove_key(st.relocs, i);
                },
                None => {},
            }
        } else if starts_with(first, '@') {
            assert(first != push_name);
            assert forall|k: Seq<char>| !defines(line, k) && !references(line, k) by {}
            assert(st2.labels == st.labels && st2.relocs == st.relocs);
        } else {
            assert forall|k: Seq<char>| !defines(line, k) by {}
            match instruction_named(first) {
                Some(Instruction::Push(_)) => {
                    let a = arg->0;
                    assert(first == push_name);
                    assert forall|k: Seq<char>| references(line, k) == (k == a && parse_int(a) is None) by {}
                    if parse_int(a) is None {
                        lemma_has_key_last_index(st.labels, a);
                        lemma_has_key_last_index(st.relocs, a);
                        lemma_last_index(st.relocs, a);
                        match last_index(st.labels, a) {
                            Some(_) => {},
                            None => match last_index(st.relocs, a) {
                                Some(i) => {
                                    lemma_update_key(st.relocs, i, st.relocs[i].1.push(next_addr(st)));
                                },
                                None => {
                                    lemma_push_key(st.relocs, a, seq![next_addr(st)]);
                                },
                            },
                        }
                    }
                },
                _ => {
                    assert(first != push_name);
                    assert forall|k: Seq<char>| !references(line, k) by {}
                },
            }
        }
    }
}

proof fn lemma_run_lines_tables(lines: Seq<Seq<char>>)
    requires
        run_lines(initial_state(), lines) is Ok,
    ensures
        tables_match(run_lines(initial_state(), lines)->Ok_0, lines),
    decreases lines.len(),
{
    if lines.len() == 0 {
        assert forall|k: Seq<char>| !defined_in(lines, k) && !referenced_in(lines, k) by {}
        assert forall|k: Seq<char>| !has_key(initial_state().labels, k) && !has_key(
            initial_state().relocs,
            k,
        ) by {}
    } else {
        let prev = lines.drop_last();
        lemma_run_lines_tables(prev);
        lemma_line_step_tables(run_lines(initial_state(), prev)->Ok_0, prev, lines.last());
        assert(prev.push(lines.last()) =~= lines);
    }
}

/// When every line of a text is well formed and every label that a `PUSH`
/// uses is defined somewhere in it, before or after the use, assembly
/// succeeds.
pub proof fn law_defined_labels_assemble(src: Seq<char>)
    requires
        run_lines(initial_state(), source_lines(src)) is Ok,
        forall|k: Seq<char>|
            referenced_in(source_lines(src), k) ==> defined_in(source_lines(src), k),
    ensures
        assemble_spec(initial_state(), src) is Ok,
{
    let lines = source_lines(src);
    lemma_run_lines_tables(lines);
    let end = run_lines(initial_state(), lines)->Ok_0;
    if end.relocs.len() > 0 {
        let k = end.relocs[0].0;
        assert(has_key(end.relocs, k));
    }
}

/// When every line of a text is well formed, a label that a `PUSH` uses and
/// that no line defines makes assembly fail with an error that names it.
pub proof fn law_undefined_label_named(src: Seq<char>, k: Seq<char>)
    requires
        run_lines(initial_state(), source_lines(src)) is Ok,
        referenced_in(source_lines(src), k),
        !defined_in(source_lines(src), k),
    ensures
        assemble_spec(initial_state(), src) matches Err((_, AsmFault::UnresolvedLabels(pending)))
            && has_key(pending, k),
{
    let lines = source_lines(src);
    lemma_run_lines_tables(lines);
    let end = run_lines(initial_state(), lines)->Ok_0;
    assert(has_key(end.relocs, k));
}

pub open spec fn digit_char(d: nat) -> char {
    if d == 0 {
        '0'
    } else if d == 1 {
        '1'
    } else if d == 2 {
        '2'
    } else if d == 3 {
        '3'
    } else if d == 4 {
        '4'
    } else if d == 5 {
        '5'
    } else if d == 6 {
        '6'
    } else if d == 7 {
        '7'
    } else if d == 8 {
        '8'
    } else {
        '9'
    }
}

/// The decimal digits of `n`, most significant first.
pub open spec fn decimal_digits(n: nat) -> Seq<char>
    decreases n,
{
    if n < 10 {
        seq![digit_char(n)]
    } else {
        decimal_digits(n / 10).push(digit_char(n % 10))
    }
}

/// `v` in decimal, with a minus sign when it is negative.
pub open spec fn decimal(v: i64) -> Seq<char> {
    if v < 0 {
        seq!['-'] + decimal_digits((-v) as nat)
    } else {
        decimal_digits(v as nat)
    }
}

/// The line of text that stands for `i`: its mnemonic, and for `PUSH` a
/// space and the operand in decimal.
pub open spec fn listing_line(i: Instruction) -> Seq<char> {
    match i {
        Instruction::Push(v) => i.spec_mnemonic() + seq![' '] + decimal(v),
        _ => i.spec_mnemonic(),
    }
}

/// The text of the program `p`, one line per instruction.
pub open spec fn listing(p: Seq<Instruction>) -> Seq<char>
    decreases p.len(),
{
    if p.len() == 0 {
        seq![]
    } else {
        listing(p.drop_last()) + listing_line(p.last()) + seq!['\n']
    }
}

proof fn lemma_digit_char(k: nat)
    requires
        k < 10,
    ensures
        is_digit(digit_char(k)),
        digit_char(k) as int - '0' as int == k,
{
}

proof fn lemma_decimal_digits(n: nat)
    ensures
        decimal_digits(n).len() > 0,
        all_digits(decimal_digits(n)),
        digits_value(decimal_digits(n)) == n,
    decreases n,
{
    lemma_digit_char(n % 10);
    if n < 10 {
        let d = decimal_digits(n);
        assert(d.drop_last() =~= Seq::<char>::empty());
        assert(n % 10 == n);
        assert(digits_value(d.drop_last()) == 0);
        assert(digits_value(d) == digits_value(d.drop_last()) * 10 + (d.last() as int - '0' as int));
    } else {
        assert(n == (n / 10) * 10 + n % 10);
        lemma_decimal_digits(n / 10);
        let d = decimal_digits(n);
        assert(d.drop_last() =~= decimal_digits(n / 10));
        assert(digits_value(d) == digits_value(d.drop_last()) * 10 + (d.last() as int - '0' as int));
        assert(d.last() == digit_char(n % 10));
        assert forall|k: int| 0 <= k < d.len() implies is_digit(#[trigger] d[k]) by {
            if k < d.len() - 1 {
                assert(d[k] == decimal_digits(n / 10)[k]);
            }
        }
    }
}

proof fn lemma_parse_decimal(v: i64)
    ensures
        parse_int(decimal(v)) == Some(v),
        decimal(v).len() > 0,
        decimal(v)[0] == '-' || is_digit(decimal(v)[0]),
        forall|k: int| 0 <= k < decimal(v).len() ==> !is_space(#[trigger] decimal(v)[k]) && #[trigger] decimal(v)[k] != '\n',
{
    let s = decimal(v);
    if v < 0 {
        let m = (-v) as nat;
        lemma_decimal_digits(m);
        assert(has_sign(s));
        assert(magnitude(s) =~= decimal_digits(m));
        assert forall|k: int| 0 <= k < s.len() implies !is_space(#[trigger] s[k]) && s[k] != '\n' by {
            if k > 0 {
                assert(s[k] == decimal_digits(m)[k - 1]);
                assert(is_digit(decimal_digits(m)[k - 1]));
            }
        }
    } else {
        lemma_decimal_digits(v as nat);
        assert(is_digit(s[0]));
        assert(!has_sign(s));
        assert forall|k: int| 0 <= k < s.len() implies !is_space(#[trigger] s[k]) && s[k] != '\n' by {
            assert(is_digit(s[k]));
        }
    }
}

proof fn lemma_word_of_spaceless(w: Seq<char>, rest: Seq<char>)
    requires
        forall|k: int| 0 <= k < w.len() ==> !is_space(#[trigger] w[k]),
        rest.len() == 0 || is_space(rest[0]),
    ensures
        word_len(w + rest) == w.len(),
    decreases w.len(),
{
    if w.len() > 0 {
        assert((w + rest).drop_first() =~= w.drop_first() + rest);
        assert(!is_space(w[0]));
        lemma_word_of_spaceless(w.drop_first(), rest);
    } else {
        assert(w + rest =~= rest);
    }
}

proof fn lemma_split_words(w: Seq<char>, rest: Seq<char>)
    requires
        w.len() > 0,
        forall|k: int| 0 <= k < w.len() ==> !is_space(#[trigger] w[k]),
        rest.len() == 0 || is_space(rest[0]),
    ensures
        split_ws(w + rest) == seq![w] + split_ws(rest),
{
    lemma_word_of_spaceless(w, rest);
    assert((w + rest).take(w.len() as int) =~= w);
    assert((w + rest).skip(w.len() as int) =~= rest);
}

/// The words of a listing line.
proof fn lemma_listing_words(i: Instruction)
    ensures
        split_ws(listing_line(i)) == match i {
            Instruction::Push(v) => seq![i.spec_mnemonic(), decimal(v)],
            _ => seq![i.spec_mnemonic()],
        },
        forall|k: int| 0 <= k < listing_line(i).len() ==> #[trigger] listing_line(i)[k] != '\n',
{
    let m = i.spec_mnemonic();
    assert forall|k: int| 0 <= k < m.len() implies !is_space(#[trigger] m[k]) && m[k] != '\n' by {}
    match i {
        Instruction::Push(v) => {
            let d = decimal(v);
            lemma_parse_decimal(v);
            let line = listing_line(i);
            assert(line =~= m + (seq![' '] + d));
            lemma_split_words(m, seq![' '] + d);
            assert((seq![' '] + d).drop_first() =~= d);
            assert(d + Seq::<char>::empty() =~= d);
            lemma_split_words(d, Seq::<char>::empty());
            assert(split_ws(Seq::<char>::empty()) == Seq::<Seq<char>>::empty());
            assert(split_ws(line) =~= seq![m, d]);
            assert forall|k: int| 0 <= k < line.len() implies #[trigger] line[k] != '\n' by {
                if k >= m.len() + 1 {
                    assert(line[k] == d[k - m.len() - 1]);
                }
            }
        },
        _ => {
            assert(m + Seq::<char>::empty() =~= m);
            lemma_split_words(m, Seq::<char>::empty());
            assert(split_ws(listing_line(i)) =~= seq![m]);
        },
    }
}

/// The mnemonic of an instruction, with the operand in decimal for `PUSH`,
/// reads back as that instruction, and the labels and pending references
/// stay as they were.
pub proof fn law_mnemonic_round_trip(st: AsmState, i: Instruction)
    ensures
        instruction_step(
            st,
            i.spec_mnemonic(),
            match i {
                Instruction::Push(v) => Some(decimal(v)),
                _ => None,
            },
        ) == Ok::<AsmState, AsmFault>(AsmState { program: st.program.push(i), ..st }),
{
    assert(instruction_named(i.spec_mnemonic()) == match i {
        Instruction::Push(_) => Some(Instruction::Push(0)),
        _ => Some(i),
    });
    if let Instruction::Push(v) = i {
        lemma_parse_decimal(v);
    }
}

/// Assembling a listing line appends its instruction and changes nothing else.
proof fn lemma_listing_line_step(st: AsmState, i: Instruction)
    ensures
        line_step(st, listing_line(i)) == Ok::<AsmState, AsmFault>(
            AsmState { program: st.program.push(i), ..st },
        ),
{
    lemma_listing_words(i);
    let w = split_ws(listing_line(i));
    let m = i.spec_mnemonic();
    assert(instruction_named(m) == match i {
        Instruction::Push(_) => Some(Instruction::Push(0)),
        _ => Some(i),
    });
    if let Instruction::Push(v) = i {
        lemma_parse_decimal(v);
        assert(operand(w) == Ok::<Option<Seq<char>>, Seq<char>>(Some(decimal(v))));
    }
}

proof fn lemma_line_len_prefix(a: Seq<char>, b: Seq<char>)
    requires
        line_len(a) < a.len(),
    ensures
        line_len(a + b) == line_len(a),
    decreases a.len(),
{
    if a[0] != '\n' {
        assert((a + b).drop_first() =~= a.drop_first() + b);
        lemma_line_len_prefix(a.drop_first(), b);
    }
}

proof fn lemma_line_len_of_line(line: Seq<char>, b: Seq<char>)
    requires
        forall|k: int| 0 <= k < line.len() ==> #[trigger] line[k] != '\n',
    ensures
        line_len(line + seq!['\n'] + b) == line.len(),
    decreases line.len(),
{
    if line.len() > 0 {
        assert((line + seq!['\n'] + b).drop_first() =~= line.drop_first() + seq!['\n'] + b);
        lemma_line_len_of_line(line.drop_first(), b);
    }
}

/// Lines end with a line feed: appending a line and a line feed appends one
/// line.
proof fn lemma_source_lines_append(a: Seq<char>, line: Seq<char>)
    requires
        a.len() == 0 || a.last() == '\n',
        forall|k: int| 0 <= k < line.len() ==> #[trigger] line[k] != '\n',
    ensures
        source_lines(a + line + seq!['\n']) == source_lines(a).push(line),
    decreases a.len(),
{
    let tail = line + seq!['\n'];
    if a.len() == 0 {
        assert(a + line + seq!['\n'] =~= line + seq!['\n'] + Seq::<char>::empty());
        lemma_line_len_of_line(line, Seq::<char>::empty());
        let all = line + seq!['\n'] + Seq::<char>::empty();
        assert(all.take(line.len() as int) =~= line);
        assert(all.skip(line.len() + 1int) =~= Seq::<char>::empty());
        assert(source_lines(Seq::<char>::empty()) == Seq::<Seq<char>>::empty());
        assert(source_lines(all) == seq![line] + Seq::<Seq<char>>::empty());
        assert(source_lines(a) == Seq::<Seq<char>>::empty());
        assert(seq![line] + Seq::<Seq<char>>::empty() =~= Seq::<Seq<char>>::empty().push(line));
    } else {
        lemma_line_len(a);
        let n = line_len(a);
        if n >= a.len() {
            assert(a[a.len() - 1] != '\n');
        }
        assert(a + line + seq!['\n'] =~= a + tail);
        lemma_line_len_prefix(a, tail);
        let rest = a.skip(n + 1int);
        assert((a + tail).take(n as int) =~= a.take(n as int));
        assert((a + tail).skip(n + 1int) =~= rest + line + seq!['\n']);
        if rest.len() > 0 {
            assert(rest.last() == a.last());
        }
        lemma_source_lines_append(rest, line);
        assert(source_lines(a) == seq![a.take(n as int)] + source_lines(rest));
        assert(source_lines(a + tail) == seq![a.take(n as int)] + source_lines(rest + line + seq!['\n']));
        assert(seq![a.take(n as int)] + source_lines(rest).push(line) =~= (seq![a.take(n as int)]
            + source_lines(rest)).push(line));
    }
}

proof fn lemma_listing_lines(p: Seq<Instruction>)
    ensures
        source_lines(listing(p)) == p.map_values(|i: Instruction| listing_line(i)),
        listing(p).len() == 0 || listing(p).last() == '\n',
    decreases p.len(),
{
    if p.len() > 0 {
        lemma_listing_lines(p.drop_last());
        lemma_listing_words(p.last());
        lemma_source_lines_append(listing(p.drop_last()), listing_line(p.last()));
        assert(p.map_values(|i: Instruction| listing_line(i)) =~= p.drop_last().map_values(
            |i: Instruction| listing_line(i),
        ).push(listing_line(p.last())));
    }
}

proof fn lemma_run_listing(st: AsmState, p: Seq<Instruction>)
    ensures
        run_lines(st, p.map_values(|i: Instruction| listing_line(i))) == Ok::<
            AsmState,
            (nat, AsmFault),
        >(AsmState { program: st.program + p, ..st }),
    decreases p.len(),
{
    let lines = p.map_values(|i: Instruction| listing_line(i));
    if p.len() == 0 {
        assert(st.program + p =~= st.program);
    } else {
        lemma_run_listing(st, p.drop_last());
        assert(lines.drop_last() =~= p.drop_last().map_values(|i: Instruction| listing_line(i)));
        let mid = AsmState { program: st.program + p.drop_last(), ..st };
        lemma_listing_line_step(mid, p.last());
        assert(mid.program.push(p.last()) =~= st.program + p);
    }
}

/// Writing a program as text, one mnemonic (and for `PUSH` its operand in
/// decimal) per line, and assembling that text gives back the same
/// instructions, with no label, reference or breakpoint recorded.
pub proof fn law_listing_round_trip(p: Seq<Instruction>)
    ensures
        assemble_spec(initial_state(), listing(p)) == Ok::<AsmState, (nat, AsmFault)>(
            AsmState { program: p, ..initial_state() },
        ),
{
    lemma_listing_lines(p);
    lemma_run_listing(initial_state(), p);
    assert(initial_state().program + p =~= p);
}

} // verus!
