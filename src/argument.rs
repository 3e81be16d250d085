//! Decoding of directive arguments: constant expressions and string literals.
use vstd::prelude::*;

verus! {

broadcast use vstd::string::axiom_spec_iter;

/// Value of a decimal digit character.
pub open spec fn decimal_digit(c: char) -> Option<nat> {
    if '0' <= c && c <= '9' {
        Some((c as nat - '0' as nat) as nat)
    } else {
        None
    }
}

/// Value of a hexadecimal digit character (either case).
pub open spec fn hex_digit(c: char) -> Option<nat> {
    if '0' <= c && c <= '9' {
        Some((c as nat - '0' as nat) as nat)
    } else if 'a' <= c && c <= 'f' {
        Some((c as nat - 'a' as nat + 10) as nat)
    } else if 'A' <= c && c <= 'F' {
        Some((c as nat - 'A' as nat + 10) as nat)
    } else {
        None
    }
}

/// Digit value of `c` in base 10 or base 16.
pub open spec fn digit_in(c: char, hex: bool) -> Option<nat> {
    if hex {
        hex_digit(c)
    } else {
        decimal_digit(c)
    }
}

/// Whether every character of `s` is a digit of the base.
pub open spec fn all_digits(s: Seq<char>, hex: bool) -> bool {
    forall|i: int| 0 <= i < s.len() ==> (#[trigger] digit_in(s[i], hex)) is Some
}

/// Numeric value of a digit string, most significant digit first.
pub open spec fn digits_value(s: Seq<char>, hex: bool) -> nat
    decreases s.len(),
{
    if s.len() == 0 {
        0
    } else {
        let base: nat = if hex { 16 } else { 10 };
        let d = match digit_in(s.last(), hex) {
            Some(v) => v,
            None => 0,
        };
        digits_value(s.drop_last(), hex) * base + d
    }
}

/// The value of a numeric literal that is a nonempty digit string fitting in 64 bits.
pub open spec fn literal_value(digits: Seq<char>, hex: bool) -> Option<u64> {
    if digits.len() > 0 && all_digits(digits, hex) && digits_value(digits, hex) <= u64::MAX {
        Some(digits_value(digits, hex) as u64)
    } else {
        None
    }
}

/// Whether `s` starts with the hexadecimal prefix `0x` or `0X`.
pub open spec fn has_hex_prefix(s: Seq<char>) -> bool {
    s.len() >= 2 && s[0] == '0' && (s[1] == 'x' || s[1] == 'X')
}

/// The value of a constant expression, when the whole of `s` is one: an unsigned
/// decimal literal (`42`) or a hexadecimal literal (`0x2A`), at most `u64::MAX`.
pub open spec fn const_value(s: Seq<char>) -> Option<u64> {
    if has_hex_prefix(s) {
        literal_value(s.skip(2), true)
    } else {
        literal_value(s, false)
    }
}

/// The characters of `s`, in order.
pub fn chars_of(s: &str) -> (r: Vec<char>)
    ensures
        r@ == s@,
{
    let mut r: Vec<char> = Vec::new();
    for c in it: s.chars()
        invariant
            it.seq() == s@,
            r@ == it.seq().take(it.index() as int),
    {
        r.push(c);
    }
    r
}

/// Digit value of `c` in base 10 or base 16.
fn digit_of(c: char, hex: bool) -> (r: Option<u64>)
    ensures
        r matches Some(v) ==> digit_in(c, hex) == Some(v as nat) && v < 16,
        r is None <==> digit_in(c, hex) is None,
{
    if '0' <= c && c <= '9' {
        Some((c as u32 - '0' as u32) as u64)
    } else if !hex {
        None
    } else if 'a' <= c && c <= 'f' {
        Some((c as u32 - 'a' as u32 + 10) as u64)
    } else if 'A' <= c && c <= 'F' {
        Some((c as u32 - 'A' as u32 + 10) as u64)
    } else {
        None
    }
}

/// Appending a digit multiplies the value by the base and adds the digit.
proof fn lemma_digits_value_push(s: Seq<char>, c: char, hex: bool)
    ensures
        digits_value(s.push(c), hex) == digits_value(s, hex) * (if hex { 16nat } else { 10nat })
            + match digit_in(c, hex) {
            Some(v) => v,
            None => 0,
        },
{
    assert(s.push(c).drop_last() =~= s);
}

/// A digit string's value is at least the value of any of its prefixes.
proof fn lemma_digits_value_prefix(s: Seq<char>, j: int, hex: bool)
    requires
        0 <= j <= s.len(),
    ensures
        digits_value(s.take(j), hex) <= digits_value(s, hex),
    decreases s.len(),
{
    if j < s.len() {
        lemma_digits_value_prefix(s.drop_last(), j, hex);
        assert(s.drop_last().take(j) =~= s.take(j));
    } else {
        assert(s.take(j) =~= s);
    }
}

/// Reads `cs[start..]` as a literal in base 10 or base 16.
fn parse_literal(cs: &Vec<char>, start: usize, hex: bool) -> (r: Option<u64>)
    requires
        start <= cs.len(),
    ensures
        r == literal_value(cs@.skip(start as int), hex),
{
    let ghost whole = cs@.skip(start as int);
    if start == cs.len() {
        return None;
    }
    let base: u64 = if hex { 16 } else { 10 };
    let mut acc: u64 = 0;
    let mut i: usize = start;
    while i < cs.len()
        invariant
            start <= i <= cs.len(),
            whole == cs@.skip(start as int),
            whole.len() > 0,
            base == (if hex { 16nat } else { 10nat }),
            all_digits(whole.take(i - start), hex),
            acc == digits_value(whole.take(i - start), hex),
        decreases cs.len() - i,
    {
        let d = digit_of(cs[i], hex);
        let ghost pre = whole.take(i - start);
        assert(whole.take(i - start + 1) =~= pre.push(cs@[i as int]));
        proof {
            lemma_digits_value_push(pre, cs@[i as int], hex);
        }
        match d {
            None => {
                assert(!all_digits(whole, hex)) by {
                    assert(whole[i - start] == cs@[i as int]);
                }
                return None;
            },
            Some(v) => {
                let lim: u64 = (u64::MAX - v) / base;
                if acc > lim {
                    proof {
                        lemma_digits_value_prefix(whole, i - start + 1, hex);
                        assert(acc * base + v > u64::MAX) by (nonlinear_arith)
                            requires
                                acc > lim,
                                lim == (u64::MAX - v) / base as int,
                                base > 0,
                                v <= u64::MAX,
                        ;
                    }
                    return None;
                }
                proof {
                    assert(acc * base + v <= u64::MAX) by (nonlinear_arith)
                        requires
                            acc <= lim,
                            lim == (u64::MAX - v) / base as int,
                            base > 0,
                            v <= u64::MAX,
                    ;
                }
                acc = acc * base + v;
                i = i + 1;
            },
        }
    }
    assert(whole.take(i - start) =~= whole);
    Some(acc)
}

/// Evaluates a constant expression; `None` when `input` is not one as a whole.
pub fn parse_const_expression(input: &str) -> (r: Option<u64>)
    ensures
        r == const_value(input@),
{
    let cs = chars_of(input);
    if cs.len() >= 2 && cs[0] == '0' && (cs[1] == 'x' || cs[1] == 'X') {
        parse_literal(&cs, 2, true)
    } else {
        assert(cs@.skip(0) =~= cs@);
        parse_literal(&cs, 0, false)
    }
}

/// The character that a backslash escape `\c` stands for.
pub open spec fn escaped(c: char) -> Option<char> {
    if c == 'n' {
        Some('\n')
    } else if c == 't' {
        Some('\t')
    } else if c == 'r' {
        Some('\r')
    } else if c == '0' {
        Some('\0')
    } else if c == '\\' {
        Some('\\')
    } else if c == '"' {
        Some('"')
    } else {
        None
    }
}

/// `pre` followed by the decoded text, when there is one.
pub open spec fn prefixed(pre: Seq<char>, o: Option<Seq<char>>) -> Option<Seq<char>> {
    match o {
        Some(r) => Some(pre + r),
        None => None,
    }
}

/// Decodes the text between the quotes of a string literal: each backslash
/// escape stands for one character, and an unescaped quote is not allowed.
pub open spec fn decode_body(s: Seq<char>) -> Option<Seq<char>>
    decreases s.len(),
{
    if s.len() == 0 {
        Some(Seq::empty())
    } else if s[0] == '\\' {
        if s.len() >= 2 && escaped(s[1]) is Some {
            prefixed(seq![escaped(s[1])->0], decode_body(s.skip(2)))
        } else {
            None
        }
    } else if s[0] == '"' {
        None
    } else {
        prefixed(seq![s[0]], decode_body(s.skip(1)))
    }
}

/// The characters that the string literal `s` stands for, when the whole of `s`
/// is one: a double-quoted text with backslash escapes.
pub open spec fn string_value(s: Seq<char>) -> Option<Seq<char>> {
    if s.len() >= 2 && s[0] == '"' && s.last() == '"' {
        decode_body(s.subrange(1, s.len() - 1))
    } else {
        None
    }
}

/// The character for the escape `\c`.
fn escape_of(c: char) -> (r: Option<char>)
    ensures
        r == escaped(c),
{
    if c == 'n' {
        Some('\n')
    } else if c == 't' {
        Some('\t')
    } else if c == 'r' {
        Some('\r')
    } else if c == '0' {
        Some('\0')
    } else if c == '\\' {
        Some('\\')
    } else if c == '"' {
        Some('"')
    } else {
        None
    }
}

/// Decodes a string literal; `None` when `input` is not one as a whole.
pub fn parse_string_literal(input: &str) -> (r: Option<Vec<char>>)
    ensures
        r matches Some(v) ==> string_value(input@) == Some(v@),
        r is None <==> string_value(input@) is None,
{
    let cs = chars_of(input);
    let n = cs.len();
    if n < 2 || cs[0] != '"' || cs[n - 1] != '"' {
        return None;
    }
    let ghost body = cs@.subrange(1, n - 1);
    let end: usize = n - 1;
    let mut out: Vec<char> = Vec::new();
    let mut i: usize = 1;
    proof {
        assert(body.skip(0) =~= body);
        if let Some(r) = decode_body(body) {
            assert(Seq::<char>::empty() + r =~= r);
        }
    }
    while i < end
        invariant
            n == cs.len(),
            end == n - 1,
            1 <= i <= end,
            body == cs@.subrange(1, n - 1),
            cs@ == input@,
            string_value(cs@) == decode_body(body),
            decode_body(body) == prefixed(out@, decode_body(body.skip(i - 1))),
        decreases end + 1 - i,
    {
        let ghost rest = body.skip(i - 1);
        assert(rest[0] == cs@[i as int]);
        let c = cs[i];
        if c == '\\' {
            if i + 1 < end {
                assert(rest[1] == cs@[i + 1]);
                match escape_of(cs[i + 1]) {
                    Some(e) => {
                        assert(rest.skip(2) =~= body.skip(i + 1));
                        assert(out@.push(e) =~= out@ + seq![e]);
                        assert forall|r: Seq<char>| out@ + (seq![e] + r) == out@.push(e) + r by {
                            assert(out@ + (seq![e] + r) =~= out@.push(e) + r);
                        }
                        out.push(e);
                        i = i + 2;
                    },
                    None => {
                        assert(decode_body(rest) is None);
                        return None;
                    },
                }
            } else {
                assert(rest.len() < 2);
                assert(decode_body(rest) is None);
                return None;
            }
        } else if c == '"' {
            assert(decode_body(rest) is None);
            return None;
        } else {
            assert(rest.skip(1) =~= body.skip(i as int));
            assert forall|r: Seq<char>| out@ + (seq![c] + r) == out@.push(c) + r by {
                assert(out@ + (seq![c] + r) =~= out@.push(c) + r);
            }
            out.push(c);
            i = i + 1;
        }
    }
    assert(body.skip(end - 1) =~= Seq::<char>::empty());
    assert(out@ + Seq::<char>::empty() =~= out@);
    Some(out)
}

} // verus!
