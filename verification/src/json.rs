//! The JSON decoder: JSON text to a data value.
//!
//! Objects decode to association lists of `("key" . value)` pairs, arrays
//! to proper lists, strings to strings, `true`/`false` to booleans, `null`
//! to the empty list, integral numbers that fit 64 bits to exact integers
//! and every other number to its spelling. The grammar is stated by the
//! `j_*` functions over the text as a character sequence; error messages
//! name the byte at which reading stopped.
use vstd::prelude::*;
use crate::numeral::{
    digits_end, digits_end_exec, digits_value, digits_value_bounded, is_digit, is_digit_exec,
    lemma_all_digits_range, lemma_digits_end_bounds,
};
use crate::reader::{starts_with_at, starts_with_at_exec, step};
use crate::text::{
    byte_offset, chars_of, decimal_digits, lemma_byte_offset_monotone, lemma_byte_offset_strict,
    push_char, push_decimal, push_str, string_from_chars, utf8_len,
};
use crate::value::{list, list_of, Data, Value};

verus! {

pub const MSG_UNEXPECTED: &'static str = "unexpected character";
pub const MSG_TRAILING: &'static str = "trailing characters after JSON value";
pub const MSG_UNTERMINATED: &'static str = "unterminated string";
pub const MSG_ESCAPE: &'static str = "invalid escape sequence";
pub const MSG_HEX: &'static str = "invalid \\u escape: expected 4 hex digits";
pub const MSG_NUMBER: &'static str = "invalid number";
pub const MSG_ARRAY_SEP: &'static str = "expected ',' or ']' in array";
pub const MSG_OBJECT_SEP: &'static str = "expected ',' or '}' in object";
pub const MSG_EXPECTED_QUOTE: &'static str = "expected '\"'";
pub const MSG_EXPECTED_COLON: &'static str = "expected ':'";
pub const MSG_EXPECTED_BRACKET: &'static str = "expected '['";
pub const MSG_EXPECTED_BRACE: &'static str = "expected '{'";
pub const MSG_LITERAL: &'static str = "invalid literal, expected ";

// ---------------------------------------------------------------------------
// Specification
// ---------------------------------------------------------------------------

/// A decoded value and the index just after it, or an error message.
pub type JRead = Result<(Data, int), Seq<char>>;

pub open spec fn is_json_ws(c: char) -> bool {
    c == ' ' || c == '\t' || c == '\n' || c == '\r'
}

/// Index of the first non-whitespace character at or after `i`.
pub open spec fn jws(s: Seq<char>, i: int) -> int
    decreases s.len() - i,
{
    if 0 <= i < s.len() && is_json_ws(s[i]) {
        jws(s, i + 1)
    } else {
        i
    }
}

/// The error message for reading that stopped at byte `at`.
pub open spec fn jerr(msg: Seq<char>, at: nat) -> Seq<char> {
    "json-parse: "@ + msg + " at byte "@ + decimal_digits(at)
}

/// The byte position after consuming the byte at character `i`, if any.
pub open spec fn bumped(s: Seq<char>, i: int) -> nat {
    if 0 <= i < s.len() {
        byte_offset(s, i) + 1
    } else {
        byte_offset(s, i)
    }
}

pub open spec fn is_hex(c: char) -> bool {
    ('0' <= c <= '9') || ('a' <= c <= 'f') || ('A' <= c <= 'F')
}

pub open spec fn hex_value(c: char) -> int {
    if '0' <= c <= '9' {
        c as int - '0' as int
    } else if 'a' <= c <= 'f' {
        c as int - 'a' as int + 10
    } else {
        c as int - 'A' as int + 10
    }
}

/// How many of the (at most four) characters from `i` are hex digits, counted from `k`.
pub open spec fn hex_run(s: Seq<char>, i: int, k: int) -> int
    decreases 4 - k,
{
    if k < 4 && 0 <= i + k < s.len() && is_hex(s[i + k]) {
        hex_run(s, i, k + 1)
    } else {
        k
    }
}

/// Four hex digits at `i`: their value and the index after them.
pub open spec fn j_hex(s: Seq<char>, i: int) -> Result<(int, int), Seq<char>> {
    let k = hex_run(s, i, 0);
    if k < 4 {
        Err(jerr(MSG_HEX@, bumped(s, i + k)))
    } else {
        Ok(
            (
                ((hex_value(s[i]) * 16 + hex_value(s[i + 1])) * 16 + hex_value(s[i + 2])) * 16
                    + hex_value(s[i + 3]),
                i + 4,
            ),
        )
    }
}

pub open spec fn is_scalar(n: int) -> bool {
    (0 <= n < 0xD800) || (0xE000 <= n <= 0x10FFFF)
}

/// The character with code point `n`, or U+FFFD where `n` is none.
pub open spec fn scalar_char(n: int) -> char {
    if is_scalar(n) {
        n as char
    } else {
        '\u{FFFD}'
    }
}

/// The character of a `\u` escape whose hex digits start at `i`, and the
/// index after it: a high surrogate joins a following low one; a lone
/// surrogate becomes U+FFFD, and whatever follows it is read on its own.
pub open spec fn j_unicode(s: Seq<char>, i: int) -> Result<(char, int), Seq<char>> {
    match j_hex(s, i) {
        Err(e) => Err(e),
        Ok((code, j)) => if 0xD800 <= code < 0xDC00 {
            if 0 <= j && j + 1 < s.len() && s[j] == '\\' && s[j + 1] == 'u' {
                match j_hex(s, j + 2) {
                    Ok((low, q)) => if 0xDC00 <= low < 0xE000 {
                        Ok((scalar_char(0x10000 + (code - 0xD800) * 1024 + (low - 0xDC00)), q))
                    } else {
                        Ok(('\u{FFFD}', j))
                    },
                    Err(_) => Ok(('\u{FFFD}', j)),
                }
            } else {
                Ok(('\u{FFFD}', j))
            }
        } else if 0xDC00 <= code < 0xE000 {
            Ok(('\u{FFFD}', j))
        } else {
            Ok((scalar_char(code), j))
        },
    }
}

/// The character a one-letter escape stands for, if it is one.
pub open spec fn simple_escape(c: char) -> Option<char> {
    if c == '"' {
        Some('"')
    } else if c == '\\' {
        Some('\\')
    } else if c == '/' {
        Some('/')
    } else if c == 'b' {
        Some('\u{08}')
    } else if c == 'f' {
        Some('\u{0C}')
    } else if c == 'n' {
        Some('\n')
    } else if c == 'r' {
        Some('\r')
    } else if c == 't' {
        Some('\t')
    } else {
        None
    }
}

/// The rest of a string body from `i`, `acc` having been read so far.
pub open spec fn j_chars(s: Seq<char>, i: int, acc: Seq<char>) -> Result<(Seq<char>, int), Seq<char>>
    decreases s.len() - i,
{
    if i < 0 || i >= s.len() {
        Err(jerr(MSG_UNTERMINATED@, byte_offset(s, i)))
    } else if s[i] == '"' {
        Ok((acc, i + 1))
    } else if s[i] == '\\' {
        if i + 1 >= s.len() {
            Err(jerr(MSG_ESCAPE@, bumped(s, i + 1)))
        } else if s[i + 1] == 'u' {
            match j_unicode(s, i + 2) {
                Err(e) => Err(e),
                Ok((c, q)) => if i < q <= s.len() {
                    j_chars(s, q, acc.push(c))
                } else {
                    Err(jerr(MSG_ESCAPE@, bumped(s, i + 1)))
                },
            }
        } else {
            match simple_escape(s[i + 1]) {
                Some(c) => j_chars(s, i + 2, acc.push(c)),
                None => Err(jerr(MSG_ESCAPE@, bumped(s, i + 1))),
            }
        }
    } else {
        j_chars(s, i + 1, acc.push(s[i]))
    }
}

/// A string literal at `i`: its characters and the index after it.
pub open spec fn j_string(s: Seq<char>, i: int) -> Result<(Seq<char>, int), Seq<char>> {
    if 0 <= i < s.len() && s[i] == '"' {
        j_chars(s, i + 1, Seq::empty())
    } else {
        Err(jerr(MSG_EXPECTED_QUOTE@, bumped(s, i)))
    }
}

pub open spec fn i64_range(v: int) -> bool {
    i64::MIN <= v <= i64::MAX
}

/// Where the number lexeme starting at `i` (a `-` or a digit) ends.
pub open spec fn number_end(s: Seq<char>, i: int) -> int {
    let a = if s[i] == '-' { i + 1 } else { i };
    let b = digits_end(s, a);
    let c = if b < s.len() && s[b] == '.' { digits_end(s, b + 1) } else { b };
    if c < s.len() && (s[c] == 'e' || s[c] == 'E') {
        digits_end(s, exponent_digits_start(s, c))
    } else {
        c
    }
}

pub open spec fn exponent_digits_start(s: Seq<char>, c: int) -> int {
    if c + 1 < s.len() && (s[c + 1] == '+' || s[c + 1] == '-') {
        c + 2
    } else {
        c + 1
    }
}

/// A number at `i` (a `-` or a digit): an integral lexeme whose value
/// fits 64 bits is exact; any other lexeme with a digit in its mantissa
/// and, where it has an exponent, a digit in it, is kept as spelled.
pub open spec fn j_number(s: Seq<char>, i: int) -> JRead {
    let neg = s[i] == '-';
    let a = if neg { i + 1 } else { i };
    let b = digits_end(s, a);
    let has_frac = b < s.len() && s[b] == '.';
    let c = if has_frac { digits_end(s, b + 1) } else { b };
    let has_exp = c < s.len() && (s[c] == 'e' || s[c] == 'E');
    let d = exponent_digits_start(s, c);
    let e = number_end(s, i);
    let v = if neg { -digits_value(s.subrange(a, b)) } else { digits_value(s.subrange(a, b)) as int };
    let mantissa_digits = (b - a) + if has_frac { c - (b + 1) } else { 0 };
    if !has_frac && !has_exp && b > a && i64_range(v) {
        Ok((Data::Number(v), e))
    } else if mantissa_digits > 0 && (!has_exp || e > d) {
        Ok((Data::Decimal(s.subrange(i, e)), e))
    } else {
        Err(jerr(MSG_NUMBER@, byte_offset(s, e)))
    }
}

/// The literal word `w` at `i`.
pub open spec fn j_literal(s: Seq<char>, i: int, w: Seq<char>, d: Data) -> JRead {
    if 0 <= i && i + w.len() <= s.len() && s.subrange(i, i + w.len()) == w {
        Ok((d, i + w.len()))
    } else {
        Err(jerr(MSG_LITERAL@ + w, byte_offset(s, i)))
    }
}

/// The `(key . value)` pair of an object member.
pub open spec fn member(k: Seq<char>, v: Data) -> Data {
    Data::Pair(Box::new(Data::Str(k)), Box::new(v))
}

/// A value starting at `i`.
pub open spec fn j_value(s: Seq<char>, i: int) -> JRead
    decreases s.len() - i, 3int,
{
    if i < 0 || i >= s.len() {
        Err(jerr(MSG_UNEXPECTED@, byte_offset(s, i)))
    } else if s[i] == '{' {
        j_object(s, i)
    } else if s[i] == '[' {
        j_array(s, i)
    } else if s[i] == '"' {
        match j_string(s, i) {
            Ok((t, q)) => Ok((Data::Str(t), q)),
            Err(e) => Err(e),
        }
    } else if s[i] == 't' {
        j_literal(s, i, "true"@, Data::Bool(true))
    } else if s[i] == 'f' {
        j_literal(s, i, "false"@, Data::Bool(false))
    } else if s[i] == 'n' {
        j_literal(s, i, "null"@, Data::Nil)
    } else if s[i] == '-' || is_digit(s[i]) {
        j_number(s, i)
    } else {
        Err(jerr(MSG_UNEXPECTED@, byte_offset(s, i)))
    }
}

/// An array at `i`.
pub open spec fn j_array(s: Seq<char>, i: int) -> JRead
    decreases s.len() - i, 2int,
{
    if !(0 <= i < s.len() && s[i] == '[') {
        Err(jerr(MSG_EXPECTED_BRACKET@, bumped(s, i)))
    } else {
        let a = jws(s, i + 1);
        if a < s.len() && s[a] == ']' {
            Ok((Data::Nil, a + 1))
        } else {
            j_elements(s, i + 1, Seq::empty())
        }
    }
}

/// The rest of an array from `i`, the elements `acc` having been read.
pub open spec fn j_elements(s: Seq<char>, i: int, acc: Seq<Data>) -> JRead
    decreases s.len() - i, 4int,
{
    if !(0 <= i <= s.len()) {
        Err(jerr(MSG_UNEXPECTED@, byte_offset(s, i)))
    } else {
        let a = jws(s, i);
        proof {
            lemma_jws_bounds(s, i);
        }
        match j_value(s, a) {
            Err(e) => Err(e),
            Ok((v, p)) => if !(a < p <= s.len()) {
                Err(jerr(MSG_UNEXPECTED@, byte_offset(s, a)))
            } else {
                let b = jws(s, p);
                proof {
                    lemma_jws_bounds(s, p);
                }
                if b < s.len() && s[b] == ',' {
                    j_elements(s, b + 1, acc.push(v))
                } else if b < s.len() && s[b] == ']' {
                    Ok((list_of(acc.push(v)), b + 1))
                } else {
                    Err(jerr(MSG_ARRAY_SEP@, bumped(s, b)))
                }
            },
        }
    }
}

/// An object at `i`.
pub open spec fn j_object(s: Seq<char>, i: int) -> JRead
    decreases s.len() - i, 2int,
{
    if !(0 <= i < s.len() && s[i] == '{') {
        Err(jerr(MSG_EXPECTED_BRACE@, bumped(s, i)))
    } else {
        let a = jws(s, i + 1);
        if a < s.len() && s[a] == '}' {
            Ok((Data::Nil, a + 1))
        } else {
            j_members(s, i + 1, Seq::empty())
        }
    }
}

/// The rest of an object from `i`, the members `acc` having been read.
pub open spec fn j_members(s: Seq<char>, i: int, acc: Seq<Data>) -> JRead
    decreases s.len() - i, 4int,
{
    if !(0 <= i <= s.len()) {
        Err(jerr(MSG_UNEXPECTED@, byte_offset(s, i)))
    } else {
        let a = jws(s, i);
        proof {
            lemma_jws_bounds(s, i);
        }
        match j_string(s, a) {
            Err(e) => Err(e),
            Ok((k, p)) => if !(a < p <= s.len()) {
                Err(jerr(MSG_UNEXPECTED@, byte_offset(s, a)))
            } else {
                let b = jws(s, p);
                proof {
                    lemma_jws_bounds(s, p);
                }
                if !(b < s.len() && s[b] == ':') {
                    Err(jerr(MSG_EXPECTED_COLON@, bumped(s, b)))
                } else {
                    let c = jws(s, b + 1);
                    proof {
                        lemma_jws_bounds(s, b + 1);
                    }
                    match j_value(s, c) {
                        Err(e) => Err(e),
                        Ok((v, q)) => if !(c < q <= s.len()) {
                            Err(jerr(MSG_UNEXPECTED@, byte_offset(s, c)))
                        } else {
                            let d = jws(s, q);
                            proof {
                                lemma_jws_bounds(s, q);
                            }
                            if d < s.len() && s[d] == ',' {
                                j_members(s, d + 1, acc.push(member(k, v)))
                            } else if d < s.len() && s[d] == '}' {
                                Ok((list_of(acc.push(member(k, v))), d + 1))
                            } else {
                                Err(jerr(MSG_OBJECT_SEP@, bumped(s, d)))
                            }
                        },
                    }
                }
            },
        }
    }
}

/// A whole JSON document: one value, with only whitespace around it.
pub open spec fn spec_parse_json(s: Seq<char>) -> Result<Data, Seq<char>> {
    let a = jws(s, 0);
    match j_value(s, a) {
        Err(e) => Err(e),
        Ok((v, p)) => {
            let b = jws(s, p);
            if b != s.len() {
                Err(jerr(MSG_TRAILING@, byte_offset(s, b)))
            } else {
                Ok(v)
            }
        },
    }
}


// ---------------------------------------------------------------------------
// Decoder
// ---------------------------------------------------------------------------

/// `char::from_u32`: the character whose code point is `code`; `None` for a
/// surrogate code point or one above U+10FFFF.
#[verifier::external_body]
fn char_from_u32(code: u32) -> (r: Option<char>)
    ensures
        r == (if is_scalar(code as int) {
            Some(scalar_char(code as int))
        } else {
            None::<char>
        }),
{
    char::from_u32(code)
}

fn scalar_char_exec(code: u32) -> (c: char)
    ensures
        c == scalar_char(code as int),
{
    match char_from_u32(code) {
        Some(c) => c,
        None => '\u{FFFD}',
    }
}

fn json_error(msg: &str, at: usize) -> (r: String)
    ensures
        r@ == jerr(msg@, at as nat),
{
    let mut out = String::new();
    push_str(&mut out, "json-parse: ");
    push_str(&mut out, msg);
    push_str(&mut out, " at byte ");
    push_decimal(&mut out, at as u64);
    proof {
        assert(Seq::<char>::empty() + "json-parse: "@ + msg@ + " at byte "@ + decimal_digits(
            at as nat,
        ) =~= jerr(msg@, at as nat));
    }
    out
}

fn literal_error(word: &str, at: usize) -> (r: String)
    ensures
        r@ == jerr(MSG_LITERAL@ + word@, at as nat),
{
    let mut out = String::new();
    push_str(&mut out, "json-parse: ");
    push_str(&mut out, MSG_LITERAL);
    push_str(&mut out, word);
    push_str(&mut out, " at byte ");
    push_decimal(&mut out, at as u64);
    proof {
        assert(Seq::<char>::empty() + "json-parse: "@ + MSG_LITERAL@ + word@ + " at byte "@
            + decimal_digits(at as nat) =~= jerr(MSG_LITERAL@ + word@, at as nat));
    }
    out
}

fn bumped_exec(s: &Vec<char>, p: usize, b: usize) -> (r: usize)
    requires
        p <= s@.len(),
        b == byte_offset(s@, p as int),
        utf8_len(s@) <= usize::MAX,
    ensures
        r == bumped(s@, p as int),
{
    if p < s.len() {
        proof {
            lemma_byte_offset_strict(s@, p as int, p + 1);
            lemma_byte_offset_monotone(s@, p + 1, p + 1);
        }
        b + 1
    } else {
        b
    }
}

/// Moves from `p` to `e`, keeping the byte offset in step.
fn advance(s: &Vec<char>, p: usize, b: usize, e: usize) -> (r: usize)
    requires
        p <= e <= s@.len(),
        b == byte_offset(s@, p as int),
        utf8_len(s@) <= usize::MAX,
    ensures
        r == byte_offset(s@, e as int),
{
    let mut i = p;
    let mut bi = b;
    while i < e
        invariant
            p <= i <= e <= s@.len(),
            bi == byte_offset(s@, i as int),
            utf8_len(s@) <= usize::MAX,
        decreases e - i,
    {
        let (n, nb) = step(s, i, bi);
        i = n;
        bi = nb;
    }
    bi
}

fn skip_ws(s: &Vec<char>, p: usize, b: usize) -> (r: (usize, usize))
    requires
        p <= s@.len(),
        b == byte_offset(s@, p as int),
        utf8_len(s@) <= usize::MAX,
    ensures
        r.0 == jws(s@, p as int),
        r.1 == byte_offset(s@, r.0 as int),
        p <= r.0 <= s@.len(),
{
    proof {
        lemma_jws_bounds(s@, p as int);
    }
    let mut i = p;
    let mut bi = b;
    while i < s.len() && (s[i] == ' ' || s[i] == '\t' || s[i] == '\n' || s[i] == '\r')
        invariant
            p <= i <= s@.len(),
            bi == byte_offset(s@, i as int),
            utf8_len(s@) <= usize::MAX,
            jws(s@, i as int) == jws(s@, p as int),
        decreases s@.len() - i,
    {
        let (n, nb) = step(s, i, bi);
        i = n;
        bi = nb;
    }
    (i, bi)
}

fn is_hex_exec(c: char) -> (r: bool)
    ensures
        r == is_hex(c),
{
    ('0' <= c && c <= '9') || ('a' <= c && c <= 'f') || ('A' <= c && c <= 'F')
}

fn hex_value_exec(c: char) -> (r: u32)
    requires
        is_hex(c),
    ensures
        r == hex_value(c),
        r < 16,
{
    if '0' <= c && c <= '9' {
        (c as u32) - ('0' as u32)
    } else if 'a' <= c && c <= 'f' {
        (c as u32) - ('a' as u32) + 10
    } else {
        (c as u32) - ('A' as u32) + 10
    }
}

pub open spec fn hex_acc(s: Seq<char>, p: int, k: int) -> int
    decreases k,
{
    if k <= 0 {
        0
    } else {
        hex_acc(s, p, k - 1) * 16 + hex_value(s[p + k - 1])
    }
}

/// Four hex digits at `p`.
fn parse_hex(s: &Vec<char>, p: usize, bp: usize) -> (r: Result<(u32, usize, usize), String>)
    requires
        p <= s@.len(),
        bp == byte_offset(s@, p as int),
        utf8_len(s@) <= usize::MAX,
    ensures
        match r {
            Ok((code, q, qb)) => j_hex(s@, p as int) == Ok::<(int, int), Seq<char>>(
                (code as int, q as int),
            ) && q == p + 4 && q <= s@.len() && qb == byte_offset(s@, q as int) && code
                <= 0xFFFF,
            Err(e) => j_hex(s@, p as int) == Err::<(int, int), Seq<char>>(e@),
        },
{
    let mut k: usize = 0;
    let mut i = p;
    let mut bi = bp;
    let mut code: u32 = 0;
    while k < 4
        invariant
            k <= 4,
            i == p + k,
            i <= s@.len(),
            p <= s@.len(),
            bi == byte_offset(s@, i as int),
            utf8_len(s@) <= usize::MAX,
            hex_run(s@, p as int, 0) == hex_run(s@, p as int, k as int),
            forall|j: int| 0 <= j < k ==> is_hex(#[trigger] s@[p + j]),
            code == hex_acc(s@, p as int, k as int),
            code < (if k == 0 { 1int } else if k == 1 { 16 } else if k == 2 { 256 } else if k
                == 3 { 4096 } else { 65536 }),
        decreases 4 - k,
    {
        if i < s.len() && is_hex_exec(s[i]) {
            let d = hex_value_exec(s[i]);
            code = code * 16 + d;
            let (n, nb) = step(s, i, bi);
            i = n;
            bi = nb;
            k += 1;
        } else {
            let at = bumped_exec(s, i, bi);
            return Err(json_error(MSG_HEX, at));
        }
    }
    proof {
        assert(hex_run(s@, p as int, 4) == 4);
        assert(is_hex(s@[p + 0]));
        assert(is_hex(s@[p + 1]));
        assert(is_hex(s@[p + 2]));
        assert(is_hex(s@[p + 3]));
        reveal_with_fuel(hex_acc, 5);
    }
    Ok((code, i, bi))
}

/// The character of a `\u` escape whose digits start at `p`.
fn parse_unicode(s: &Vec<char>, p: usize, bp: usize) -> (r: Result<(char, usize, usize), String>)
    requires
        p <= s@.len(),
        bp == byte_offset(s@, p as int),
        utf8_len(s@) <= usize::MAX,
    ensures
        match r {
            Ok((c, q, qb)) => j_unicode(s@, p as int) == Ok::<(char, int), Seq<char>>(
                (c, q as int),
            ) && p < q <= s@.len() && qb == byte_offset(s@, q as int),
            Err(e) => j_unicode(s@, p as int) == Err::<(char, int), Seq<char>>(e@),
        },
{
    match parse_hex(s, p, bp) {
        Err(e) => Err(e),
        Ok((code, j, jb)) => {
            if 0xD800 <= code && code < 0xDC00 {
                if j < s.len() && j + 1 < s.len() && s[j] == '\\' && s[j + 1] == 'u' {
                    let (j1, jb1) = step(s, j, jb);
                    let (j2, jb2) = step(s, j1, jb1);
                    match parse_hex(s, j2, jb2) {
                        Err(_) => Ok(('\u{FFFD}', j, jb)),
                        Ok((low, q, qb)) => {
                            if 0xDC00 <= low && low < 0xE000 {
                                let cp = 0x10000 + (code - 0xD800) * 1024 + (low - 0xDC00);
                                Ok((scalar_char_exec(cp), q, qb))
                            } else {
                                Ok(('\u{FFFD}', j, jb))
                            }
                        },
                    }
                } else {
                    Ok(('\u{FFFD}', j, jb))
                }
            } else if 0xDC00 <= code && code < 0xE000 {
                Ok(('\u{FFFD}', j, jb))
            } else {
                Ok((scalar_char_exec(code), j, jb))
            }
        },
    }
}

fn simple_escape_exec(c: char) -> (r: Option<char>)
    ensures
        r == simple_escape(c),
{
    if c == '"' {
        Some('"')
    } else if c == '\\' {
        Some('\\')
    } else if c == '/' {
        Some('/')
    } else if c == 'b' {
        Some('\u{08}')
    } else if c == 'f' {
        Some('\u{0C}')
    } else if c == 'n' {
        Some('\n')
    } else if c == 'r' {
        Some('\r')
    } else if c == 't' {
        Some('\t')
    } else {
        None
    }
}

/// A string literal at `p`.
fn parse_string(s: &Vec<char>, p: usize, bp: usize) -> (r: Result<(String, usize, usize), String>)
    requires
        p <= s@.len(),
        bp == byte_offset(s@, p as int),
        utf8_len(s@) <= usize::MAX,
    ensures
        match r {
            Ok((t, q, qb)) => j_string(s@, p as int) == Ok::<(Seq<char>, int), Seq<char>>(
                (t@, q as int),
            ) && p < q <= s@.len() && qb == byte_offset(s@, q as int),
            Err(e) => j_string(s@, p as int) == Err::<(Seq<char>, int), Seq<char>>(e@),
        },
{
    if !(p < s.len() && s[p] == '"') {
        let at = bumped_exec(s, p, bp);
        return Err(json_error(MSG_EXPECTED_QUOTE, at));
    }
    let (i0, b0) = step(s, p, bp);
    let mut i = i0;
    let mut bi = b0;
    let mut out = String::new();
    loop
        invariant
            p < i <= s@.len(),
            bi == byte_offset(s@, i as int),
            utf8_len(s@) <= usize::MAX,
            j_chars(s@, i as int, out@) == j_string(s@, p as int),
        decreases s@.len() - i,
    {
        if i >= s.len() {
            return Err(json_error(MSG_UNTERMINATED, bi));
        }
        let c = s[i];
        if c == '"' {
            let (q, qb) = step(s, i, bi);
            return Ok((out, q, qb));
        }
        if c == '\\' {
            let (i1, b1) = step(s, i, bi);
            if i1 >= s.len() {
                let at = bumped_exec(s, i1, b1);
                return Err(json_error(MSG_ESCAPE, at));
            }
            let e = s[i1];
            if e == 'u' {
                let (i2, b2) = step(s, i1, b1);
                match parse_unicode(s, i2, b2) {
                    Err(err) => {
                        return Err(err);
                    },
                    Ok((ch, q, qb)) => {
                        push_char(&mut out, ch);
                        i = q;
                        bi = qb;
                    },
                }
            } else {
                match simple_escape_exec(e) {
                    Some(ch) => {
                        push_char(&mut out, ch);
                        let (i2, b2) = step(s, i1, b1);
                        i = i2;
                        bi = b2;
                    },
                    None => {
                        let at = bumped_exec(s, i1, b1);
                        return Err(json_error(MSG_ESCAPE, at));
                    },
                }
            }
        } else {
            push_char(&mut out, c);
            let (n, nb) = step(s, i, bi);
            i = n;
            bi = nb;
        }
    }
}


/// A number at `p`, which holds a `-` or a digit.
fn parse_number(s: &Vec<char>, p: usize, bp: usize) -> (r: Result<(Value, usize, usize), String>)
    requires
        p < s@.len(),
        s@[p as int] == '-' || is_digit(s@[p as int]),
        bp == byte_offset(s@, p as int),
        utf8_len(s@) <= usize::MAX,
    ensures
        match r {
            Ok((v, q, qb)) => j_number(s@, p as int) == Ok::<(Data, int), Seq<char>>(
                (v@, q as int),
            ) && p < q <= s@.len() && qb == byte_offset(s@, q as int),
            Err(e) => j_number(s@, p as int) == Err::<(Data, int), Seq<char>>(e@),
        },
{
    let n = s.len();
    let neg = s[p] == '-';
    let a = if neg {
        p + 1
    } else {
        p
    };
    let b = digits_end_exec(s, a);
    proof {
        lemma_digits_end_bounds(s@, a as int);
    }
    let has_frac = b < n && s[b] == '.';
    let c = if has_frac {
        digits_end_exec(s, b + 1)
    } else {
        b
    };
    proof {
        if has_frac {
            lemma_digits_end_bounds(s@, b + 1);
        }
    }
    let has_exp = c < n && (s[c] == 'e' || s[c] == 'E');
    let d = if !has_exp {
        c
    } else if c + 1 < n && (s[c + 1] == '+' || s[c + 1] == '-') {
        c + 2
    } else {
        c + 1
    };
    let e = if has_exp {
        digits_end_exec(s, d)
    } else {
        c
    };
    proof {
        if has_exp {
            lemma_digits_end_bounds(s@, d as int);
        }
        assert(e == number_end(s@, p as int));
    }
    let eb = advance(s, p, bp, e);
    if !has_frac && !has_exp && b > a {
        proof {
            lemma_all_digits_range(s@, a as int, b as int);
        }
        match digits_value_bounded(s, a, b, 9223372036854775808u128) {
            Some(v) => {
                if neg {
                    let x: i64 = if v == 9223372036854775808u128 {
                        i64::MIN
                    } else {
                        -(v as i64)
                    };
                    return Ok((Value::Number(x), e, eb));
                } else if v <= 9223372036854775807u128 {
                    return Ok((Value::Number(v as i64), e, eb));
                }
            },
            None => {},
        }
    }
    let mantissa = (b - a) + if has_frac {
        c - (b + 1)
    } else {
        0
    };
    if mantissa > 0 && (!has_exp || e > d) {
        let text = string_from_chars(s, p, e);
        Ok((Value::Decimal(text), e, eb))
    } else {
        Err(json_error(MSG_NUMBER, eb))
    }
}

/// The literal word `w` at `p`.
fn parse_literal(s: &Vec<char>, p: usize, bp: usize, w: &str, d: Value) -> (r: Result<
    (Value, usize, usize),
    String,
>)
    requires
        p <= s@.len(),
        w@.len() > 0,
        bp == byte_offset(s@, p as int),
        utf8_len(s@) <= usize::MAX,
    ensures
        match r {
            Ok((v, q, qb)) => j_literal(s@, p as int, w@, d@) == Ok::<(Data, int), Seq<char>>(
                (v@, q as int),
            ) && p < q <= s@.len() && qb == byte_offset(s@, q as int),
            Err(e) => j_literal(s@, p as int, w@, d@) == Err::<(Data, int), Seq<char>>(e@),
        },
{
    let n = s.len();
    let found = starts_with_at_exec(s, p, w);
    if found {
        assert(p + w@.len() <= s@.len());
        let wc = chars_of(w);
        assert(wc@.len() == w@.len());
        let q = p + wc.len();
        let qb = advance(s, p, bp, q);
        Ok((d, q, qb))
    } else {
        Err(literal_error(w, bp))
    }
}

/// The views of a vector of values.
pub open spec fn data_of(vs: Seq<Value>) -> Seq<Data> {
    Seq::new(vs.len(), |k: int| vs[k]@)
}

/// A value at `p`.
fn parse_value(s: &Vec<char>, p: usize, bp: usize) -> (r: Result<(Value, usize, usize), String>)
    requires
        p <= s@.len(),
        bp == byte_offset(s@, p as int),
        utf8_len(s@) <= usize::MAX,
    ensures
        match r {
            Ok((v, q, qb)) => j_value(s@, p as int) == Ok::<(Data, int), Seq<char>>(
                (v@, q as int),
            ) && p < q <= s@.len() && qb == byte_offset(s@, q as int),
            Err(e) => j_value(s@, p as int) == Err::<(Data, int), Seq<char>>(e@),
        },
    decreases s@.len() - p, 3int,
{
    if p >= s.len() {
        return Err(json_error(MSG_UNEXPECTED, bp));
    }
    let c = s[p];
    if c == '{' {
        parse_object(s, p, bp)
    } else if c == '[' {
        parse_array(s, p, bp)
    } else if c == '"' {
        match parse_string(s, p, bp) {
            Ok((t, q, qb)) => Ok((Value::String(t), q, qb)),
            Err(e) => Err(e),
        }
    } else if c == 't' {
        proof {
            reveal_strlit("true");
        }
        parse_literal(s, p, bp, "true", Value::Bool(true))
    } else if c == 'f' {
        proof {
            reveal_strlit("false");
        }
        parse_literal(s, p, bp, "false", Value::Bool(false))
    } else if c == 'n' {
        proof {
            reveal_strlit("null");
        }
        parse_literal(s, p, bp, "null", Value::Nil)
    } else if c == '-' || is_digit_exec(c) {
        parse_number(s, p, bp)
    } else {
        Err(json_error(MSG_UNEXPECTED, bp))
    }
}

/// An array at `p`, which holds `[`.
fn parse_array(s: &Vec<char>, p: usize, bp: usize) -> (r: Result<(Value, usize, usize), String>)
    requires
        p < s@.len(),
        s@[p as int] == '[',
        bp == byte_offset(s@, p as int),
        utf8_len(s@) <= usize::MAX,
    ensures
        match r {
            Ok((v, q, qb)) => j_array(s@, p as int) == Ok::<(Data, int), Seq<char>>(
                (v@, q as int),
            ) && p < q <= s@.len() && qb == byte_offset(s@, q as int),
            Err(e) => j_array(s@, p as int) == Err::<(Data, int), Seq<char>>(e@),
        },
    decreases s@.len() - p, 2int,
{
    let (i0, b0) = step(s, p, bp);
    let (a, ab) = skip_ws(s, i0, b0);
    if a < s.len() && s[a] == ']' {
        let (q, qb) = step(s, a, ab);
        return Ok((Value::Nil, q, qb));
    }
    let mut items: Vec<Value> = Vec::new();
    let mut i = i0;
    let mut bi = b0;
    proof {
        assert(data_of(items@) =~= Seq::<Data>::empty());
    }
    loop
        invariant
            p < i <= s@.len(),
            bi == byte_offset(s@, i as int),
            utf8_len(s@) <= usize::MAX,
            j_elements(s@, i as int, data_of(items@)) == j_array(s@, p as int),
        decreases s@.len() - i,
    {
        let (a, ab) = skip_ws(s, i, bi);
        proof {
            lemma_jws_bounds(s@, i as int);
        }
        match parse_value(s, a, ab) {
            Err(e) => {
                return Err(e);
            },
            Ok((v, q, qb)) => {
                let (c, cb) = skip_ws(s, q, qb);
                proof {
                    lemma_jws_bounds(s@, q as int);
                }
                let ghost before = data_of(items@);
                let ghost vv = v@;
                items.push(v);
                proof {
                    assert(data_of(items@) =~= before.push(vv));
                }
                if c < s.len() && s[c] == ',' {
                    let (n, nb) = step(s, c, cb);
                    i = n;
                    bi = nb;
                } else if c < s.len() && s[c] == ']' {
                    let (n, nb) = step(s, c, cb);
                    let out = list(items);
                    return Ok((out, n, nb));
                } else {
                    let at = bumped_exec(s, c, cb);
                    return Err(json_error(MSG_ARRAY_SEP, at));
                }
            },
        }
    }
}

/// An object at `p`, which holds `{`.
fn parse_object(s: &Vec<char>, p: usize, bp: usize) -> (r: Result<(Value, usize, usize), String>)
    requires
        p < s@.len(),
        s@[p as int] == '{',
        bp == byte_offset(s@, p as int),
        utf8_len(s@) <= usize::MAX,
    ensures
        match r {
            Ok((v, q, qb)) => j_object(s@, p as int) == Ok::<(Data, int), Seq<char>>(
                (v@, q as int),
            ) && p < q <= s@.len() && qb == byte_offset(s@, q as int),
            Err(e) => j_object(s@, p as int) == Err::<(Data, int), Seq<char>>(e@),
        },
    decreases s@.len() - p, 2int,
{
    let (i0, b0) = step(s, p, bp);
    let (a, ab) = skip_ws(s, i0, b0);
    if a < s.len() && s[a] == '}' {
        let (q, qb) = step(s, a, ab);
        return Ok((Value::Nil, q, qb));
    }
    let mut items: Vec<Value> = Vec::new();
    let mut i = i0;
    let mut bi = b0;
    proof {
        assert(data_of(items@) =~= Seq::<Data>::empty());
    }
    loop
        invariant
            p < i <= s@.len(),
            bi == byte_offset(s@, i as int),
            utf8_len(s@) <= usize::MAX,
            j_members(s@, i as int, data_of(items@)) == j_object(s@, p as int),
        decreases s@.len() - i,
    {
        let (a, ab) = skip_ws(s, i, bi);
        proof {
            lemma_jws_bounds(s@, i as int);
        }
        let key = match parse_string(s, a, ab) {
            Err(e) => {
                return Err(e);
            },
            Ok(k) => k,
        };
        let (k, kq, kqb) = key;
        let (c, cb) = skip_ws(s, kq, kqb);
        proof {
            lemma_jws_bounds(s@, kq as int);
        }
        if !(c < s.len() && s[c] == ':') {
            let at = bumped_exec(s, c, cb);
            return Err(json_error(MSG_EXPECTED_COLON, at));
        }
        let (c1, cb1) = step(s, c, cb);
        let (d, db) = skip_ws(s, c1, cb1);
        proof {
            lemma_jws_bounds(s@, c1 as int);
        }
        match parse_value(s, d, db) {
            Err(e) => {
                return Err(e);
            },
            Ok((v, q, qb)) => {
                let (f, fb) = skip_ws(s, q, qb);
                proof {
                    lemma_jws_bounds(s@, q as int);
                }
                let ghost before = data_of(items@);
                let ghost m = member(k@, v@);
                let kv = Value::String(k);
                assert(kv@ == Data::Str(m->Pair_0->Str_0));
                let entry = Value::Pair(Box::new(kv), Box::new(v));
                assert(entry@ == m);
                items.push(entry);
                proof {
                    assert(data_of(items@) =~= before.push(m));
                }
                if f < s.len() && s[f] == ',' {
                    let (n, nb) = step(s, f, fb);
                    i = n;
                    bi = nb;
                } else if f < s.len() && s[f] == '}' {
                    let (n, nb) = step(s, f, fb);
                    let out = list(items);
                    return Ok((out, n, nb));
                } else {
                    let at = bumped_exec(s, f, fb);
                    return Err(json_error(MSG_OBJECT_SEP, at));
                }
            },
        }
    }
}

/// Decodes a JSON document.
pub fn parse_json(text: &str) -> (r: Result<Value, String>)
    ensures
        match r {
            Ok(v) => spec_parse_json(text@) == Ok::<Data, Seq<char>>(v@),
            Err(e) => spec_parse_json(text@) == Err::<Data, Seq<char>>(e@),
        },
{
    let s = chars_of(text);
    proof {
        assert(s@.take(0) =~= Seq::<char>::empty());
    }
    let (a, ab) = skip_ws(&s, 0, 0);
    match parse_value(&s, a, ab) {
        Err(e) => Err(e),
        Ok((v, q, qb)) => {
            let (b, bb) = skip_ws(&s, q, qb);
            if b != s.len() {
                Err(json_error(MSG_TRAILING, bb))
            } else {
                Ok(v)
            }
        },
    }
}

pub proof fn lemma_jws_bounds(s: Seq<char>, i: int)
    requires
        0 <= i <= s.len(),
    ensures
        i <= jws(s, i) <= s.len(),
        jws(s, i) < s.len() ==> !is_json_ws(s[jws(s, i)]),
        forall|k: int| i <= k < jws(s, i) ==> is_json_ws(#[trigger] s[k]),
    decreases s.len() - i,
{
    if i < s.len() && is_json_ws(s[i]) {
        lemma_jws_bounds(s, i + 1);
    }
}

/// Law: inside a JSON string, the two-character escapes of RFC 8259 stand
/// for their characters (`\"` quote, `\\` backslash, `\/` solidus, `\b`
/// backspace, `\f` form feed, `\n` line feed, `\r` carriage return, `\t`
/// tab) and reading goes on after them; a backslash followed by any other
/// character but `u` is an error.
pub proof fn law_json_escapes(s: Seq<char>, i: int, acc: Seq<char>)
    requires
        0 <= i,
        i + 1 < s.len(),
        s[i] == '\\',
        s[i + 1] != 'u',
    ensures
        ({
            let e = s[i + 1];
            let table: Option<char> = if e == '"' {
                Some('\u{22}')
            } else if e == '\\' {
                Some('\u{5C}')
            } else if e == '/' {
                Some('\u{2F}')
            } else if e == 'b' {
                Some('\u{08}')
            } else if e == 'f' {
                Some('\u{0C}')
            } else if e == 'n' {
                Some('\u{0A}')
            } else if e == 'r' {
                Some('\u{0D}')
            } else if e == 't' {
                Some('\u{09}')
            } else {
                None
            };
            match table {
                Some(c) => j_chars(s, i, acc) == j_chars(s, i + 2, acc.push(c)),
                None => j_chars(s, i, acc) is Err,
            }
        }),
{
}

} // verus!
