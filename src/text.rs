use vstd::prelude::*;
use vstd::std_specs::iter::IteratorSpec;
use vstd::string::StrSliceExecFns;

verus! {

/// The characters with the Unicode `White_Space` property.
pub open spec fn is_space(c: char) -> bool {
    let u = c as u32;
    ||| 0x09 <= u <= 0x0d
    ||| u == 0x20
    ||| u == 0x85
    ||| u == 0xa0
    ||| u == 0x1680
    ||| 0x2000 <= u <= 0x200a
    ||| u == 0x2028
    ||| u == 0x2029
    ||| u == 0x202f
    ||| u == 0x205f
    ||| u == 0x3000
}

pub fn is_whitespace(c: char) -> (r: bool)
    ensures
        r == is_space(c),
{
    let u = c as u32;
    (0x09 <= u && u <= 0x0d) || u == 0x20 || u == 0x85 || u == 0xa0 || u == 0x1680 || (0x2000 <= u
        && u <= 0x200a) || u == 0x2028 || u == 0x2029 || u == 0x202f || u == 0x205f || u == 0x3000
}

/// The length of the run of non-space characters at the start of `s`.
pub open spec fn word_len(s: Seq<char>) -> nat
    decreases s.len(),
{
    if s.len() == 0 || is_space(s[0]) {
        0
    } else {
        1 + word_len(s.drop_first())
    }
}

/// The maximal runs of non-space characters of `s`, in order.
pub open spec fn split_ws(s: Seq<char>) -> Seq<Seq<char>>
    decreases s.len(),
    via split_ws_decreases
{
    if s.len() == 0 {
        seq![]
    } else if is_space(s[0]) {
        split_ws(s.drop_first())
    } else {
        let n = word_len(s);
        seq![s.take(n as int)] + split_ws(s.skip(n as int))
    }
}

#[via_fn]
proof fn split_ws_decreases(s: Seq<char>) {
    lemma_word_len_bound(s);
}

proof fn lemma_word_len_bound(s: Seq<char>)
    ensures
        word_len(s) <= s.len(),
        word_len(s) < s.len() ==> is_space(s[word_len(s) as int]),
        forall|k: int| 0 <= k < word_len(s) ==> !is_space(#[trigger] s[k]),
    decreases s.len(),
{
    if s.len() > 0 && !is_space(s[0]) {
        lemma_word_len_bound(s.drop_first());
        assert forall|k: int| 0 <= k < word_len(s) implies !is_space(#[trigger] s[k]) by {
            if k > 0 {
                assert(s[k] == s.drop_first()[k - 1]);
            }
        }
    }
}

/// The characters of `s`, in order.
pub fn chars_of(s: &str) -> (r: Vec<char>)
    ensures
        r@ == s@,
{
    let mut r: Vec<char> = Vec::new();
    for c in it: s.chars()
        invariant
            it.seq() == s@,
            r@ == it.seq().take(it.index() as int),
    {
        r.push(c);
    }
    r
}

pub open spec fn words_view(words: Seq<Vec<char>>) -> Seq<Seq<char>> {
    words.map_values(|w: Vec<char>| w@)
}

/// The maximal runs of non-space characters of `line`, in order.
pub fn split_whitespace(line: &[char]) -> (r: Vec<Vec<char>>)
    ensures
        words_view(r@) == split_ws(line@),
{
    let mut words: Vec<Vec<char>> = Vec::new();
    let mut i: usize = 0;
    assert(line@.skip(0) =~= line@);
    assert(words@.map_values(|w: Vec<char>| w@) =~= Seq::<Seq<char>>::empty());
    while i < line.len()
        invariant
            i <= line@.len(),
            words@.map_values(|w: Vec<char>| w@) + split_ws(line@.skip(i as int)) == split_ws(line@),
        decreases line@.len() - i,
    {
        let ghost rest = line@.skip(i as int);
        if is_whitespace(line[i]) {
            assert(rest.drop_first() =~= line@.skip(i + 1));
            i += 1;
        } else {
            let mut j: usize = i;
            let mut word: Vec<char> = Vec::new();
            while j < line.len() && !is_whitespace(line[j])
                invariant
                    i <= j <= line@.len(),
                    word@ == line@.subrange(i as int, j as int),
                    word_len(rest) == (j - i) + word_len(line@.skip(j as int)),
                decreases line@.len() - j,
            {
                assert(line@.skip(j as int).drop_first() =~= line@.skip(j + 1));
                word.push(line[j]);
                j += 1;
                assert(word@ =~= line@.subrange(i as int, j as int));
            }
            assert(word_len(rest) == j - i);
            assert(rest.take((j - i) as int) =~= word@);
            assert(rest.skip((j - i) as int) =~= line@.skip(j as int));
            let ghost before = words@.map_values(|w: Vec<char>| w@);
            words.push(word);
            assert(words@.map_values(|w: Vec<char>| w@) =~= before.push(word@));
            assert(before.push(word@) + split_ws(line@.skip(j as int)) =~= before + (seq![word@]
                + split_ws(line@.skip(j as int))));
            i = j;
        }
    }
    assert(line@.skip(i as int) =~= Seq::<char>::empty());
    assert(words@.map_values(|w: Vec<char>| w@) + Seq::<Seq<char>>::empty() =~= words@.map_values(
        |w: Vec<char>| w@,
    ));
    words
}

/// Relies on `String::push`: the character is appended at the end.
#[verifier::external_body]
fn push_char(s: &mut String, c: char)
    ensures
        final(s)@ == old(s)@.push(c),
{
    s.push(c);
}

/// A string of the characters `cs`, in order.
pub(crate) fn string_from(cs: &[char]) -> (r: String)
    ensures
        r@ == cs@,
{
    let mut r = String::new();
    let mut i: usize = 0;
    while i < cs.len()
        invariant
            i <= cs@.len(),
            r@ == cs@.take(i as int),
        decreases cs@.len() - i,
    {
        push_char(&mut r, cs[i]);
        i += 1;
        assert(r@ =~= cs@.take(i as int));
    }
    assert(cs@.take(i as int) =~= cs@);
    r
}

/// Whether the characters of `a` are those of `b`.
pub fn chars_eq(a: &[char], b: &str) -> (r: bool)
    ensures
        r == (a@ == b@),
{
    let n = b.unicode_len();
    if a.len() != n {
        return false;
    }
    let mut i: usize = 0;
    while i < n
        invariant
            i <= n,
            n == a@.len(),
            n == b@.len(),
            forall|k: int| 0 <= k < i ==> a@[k] == b@[k],
        decreases n - i,
    {
        if a[i] != b.get_char(i) {
            return false;
        }
        i += 1;
    }
    assert(a@ =~= b@);
    true
}

pub open spec fn is_digit(c: char) -> bool {
    '0' <= c <= '9'
}

/// The value of a run of decimal digits, most significant first.
pub open spec fn digits_value(d: Seq<char>) -> int
    decreases d.len(),
{
    if d.len() == 0 {
        0
    } else {
        digits_value(d.drop_last()) * 10 + (d.last() as int - '0' as int)
    }
}

/// `s` starts with a sign.
pub open spec fn has_sign(s: Seq<char>) -> bool {
    s.len() > 0 && (s[0] == '-' || s[0] == '+')
}

/// `s` without its sign.
pub open spec fn magnitude(s: Seq<char>) -> Seq<char> {
    if has_sign(s) {
        s.drop_first()
    } else {
        s
    }
}

pub open spec fn all_digits(d: Seq<char>) -> bool {
    forall|k: int| 0 <= k < d.len() ==> is_digit(#[trigger] d[k])
}

/// The integer that `s` is the text of: an optional `+` or `-`, then one
/// or more decimal digits, of a value that fits in an `i64`.
pub open spec fn parse_int(s: Seq<char>) -> Option<i64> {
    let d = magnitude(s);
    let v = if has_sign(s) && s[0] == '-' {
        -digits_value(d)
    } else {
        digits_value(d)
    };
    if d.len() == 0 || !all_digits(d) {
        None
    } else if i64::MIN <= v <= i64::MAX {
        Some(v as i64)
    } else {
        None
    }
}

proof fn lemma_digits_value_grows(d: Seq<char>, k: int)
    requires
        0 <= k <= d.len(),
        forall|j: int| 0 <= j < d.len() ==> is_digit(#[trigger] d[j]),
    ensures
        digits_value(d) >= digits_value(d.take(k)) >= 0,
    decreases d.len(),
{
    if k < d.len() {
        lemma_digits_value_grows(d.drop_last(), k);
        assert(d.drop_last().take(k) =~= d.take(k));
    } else {
        assert(d.take(k) =~= d);
        if d.len() > 0 {
            lemma_digits_value_grows(d.drop_last(), k - 1);
            assert(d.drop_last().take(k - 1) =~= d.drop_last());
        }
    }
}

/// Reads `s` as an integer, as `str::parse::<i64>` does.
pub fn parse_integer(s: &[char]) -> (r: Option<i64>)
    ensures
        r == parse_int(s@),
{
    let n = s.len();
    let signed = n > 0 && (s[0] == '-' || s[0] == '+');
    let neg = signed && s[0] == '-';
    let start: usize = if signed {
        1
    } else {
        0
    };
    let ghost d = magnitude(s@);
    if start == n {
        return None;
    }
    let limit: u128 = 0x8000_0000_0000_0000;
    let mut mag: u128 = 0;
    let mut i: usize = start;
    while i < n
        invariant
            start <= i <= n,
            n == s@.len(),
            limit == 0x8000_0000_0000_0000,
            d == magnitude(s@),
            d == s@.skip(start as int),
            forall|k: int| 0 <= k < i - start ==> is_digit(#[trigger] d[k]),
            mag == digits_value(d.take(i - start)),
            mag <= limit,
        decreases n - i,
    {
        let c = s[i];
        assert(d[i - start] == c);
        if !('0' <= c && c <= '9') {
            assert(!is_digit(d[i - start]));
            assert(!all_digits(d));
            return None;
        }
        let digit: u128 = (c as u32 - '0' as u32) as u128;
        assert(mag * 10 <= 0x5_0000_0000_0000_0000) by (nonlinear_arith)
            requires
                mag <= 0x8000_0000_0000_0000,
        ;
        let ghost prefix = d.take(i - start + 1);
        assert(prefix.drop_last() =~= d.take(i - start));
        mag = mag * 10 + digit;
        if mag > limit {
            proof {
                if all_digits(d) {
                    lemma_digits_value_grows(d, i - start + 1);
                }
            }
            return None;
        }
        i += 1;
    }
    assert(d.take(n - start) =~= d);
    if neg {
        Some((0i128 - mag as i128) as i64)
    } else if mag == limit {
        None
    } else {
        Some(mag as i64)
    }
}

} // verus!
