//! The canonical reader: source text to expressions with byte spans.
//!
//! The grammar is stated by the `spec_*` functions below, over the source
//! as a character sequence; every span is a byte range of the UTF-8 text.
//! `parse` is proved to return exactly what `spec_parse` describes.
use vstd::prelude::*;
use crate::error::{ErrorKind, ErrorSpec, LanguageError};
use crate::numeral::{read_decimal, read_integer, decimal_numeral, integer_numeral, Numeral, NumeralSpec};
use crate::rational::{reduce, Rational};
use crate::bignum::BigNat;
use crate::syntax::{views, Datum, Expr, ExprKind, NumericBuffer, Span, Syntax};
use crate::text::{
    byte_offset, char_width, char_width_exec, chars_of, lemma_byte_offset_monotone,
    lemma_byte_offset_step, owned, string_from_chars, utf8_len,
};

verus! {

/// Deepest list or buffer nesting the reader accepts.
pub const MAX_STRUCTURE_DEPTH: u32 = 768;

pub const MSG_UNEXPECTED_CLOSE: &'static str = "unexpected closing parenthesis · neochikuvana zakryvna duzhka · unerwartete schließende Klammer";
pub const MSG_EXPECTED_EXPRESSION: &'static str = "expected an expression · ochikuvavsia vyraz · Ausdruck erwartet";
pub const MSG_AFTER_APOSTROPHE: &'static str = "expected an expression after apostrophe · pislia apostrofa ochikuietsia vyraz · nach dem Apostroph wird ein Ausdruck erwartet";
pub const MSG_NESTING: &'static str = "nesting exceeds reader limit · hlybyna vkladennia perevyshchuie mezhu chytacha · Verschachtelungstiefe überschreitet die Ressourcengrenze";
pub const MSG_UNEXPECTED_DOT: &'static str = "unexpected '.' with nothing before it · neochikuvana '.' bez nichoho pered neiu · unerwartetes '.' ohne vorangehenden Ausdruck";
pub const MSG_AFTER_DOT: &'static str = "expected an expression after '.' · ochikuvavsia vyraz pislia '.' · Ausdruck nach '.' erwartet";
pub const MSG_AFTER_TAIL: &'static str = "expected ')' after a dotted pair's tail · ochikuvalas ')' pislia khvosta dotted-pary · ')' nach dem Ende eines Dotted Pair erwartet";
pub const MSG_UNCLOSED_LIST: &'static str = "unclosed list · nezakrytyi spysok · nicht geschlossene Liste";
pub const MSG_UNFINISHED_ESCAPE: &'static str = "unfinished string escape · nezavershena escape-poslidovnist · unvollständige Escape-Sequenz";
pub const MSG_UNCLOSED_STRING: &'static str = "unclosed string · nezakrytyi riadok · nicht geschlossene Zeichenkette";
pub const MSG_NUMERIC_LIMIT: &'static str = "decimal literal exponent exceeds the parser resource limit / eksponenta desiatkovoho literala perevyshchuie resursnu mezhu parsera / der Exponent des Dezimalliterals ueberschreitet die Ressourcengrenze des Parsers";
pub const MSG_UNCLOSED_BUFFER: &'static str = "unclosed numeric buffer";
pub const MSG_I32_ELEMENTS: &'static str = "#i32 expects exact integer elements";
pub const MSG_I32_RANGE: &'static str = "#i32 element is outside the signed 32-bit range";
pub const MSG_F32_ELEMENTS: &'static str = "#f32 expects numeric elements";
pub const MSG_F32_RANGE: &'static str = "#f32 element is outside the finite binary32 domain";

// ---------------------------------------------------------------------------
// Specification
// ---------------------------------------------------------------------------

/// `char::is_whitespace`: the Unicode White_Space characters.
pub open spec fn is_ws(c: char) -> bool {
    ||| c == '\t'
    ||| c == '\n'
    ||| c == '\u{0B}'
    ||| c == '\u{0C}'
    ||| c == '\r'
    ||| c == ' '
    ||| c == '\u{85}'
    ||| c == '\u{A0}'
    ||| c == '\u{1680}'
    ||| ('\u{2000}' <= c && c <= '\u{200A}')
    ||| c == '\u{2028}'
    ||| c == '\u{2029}'
    ||| c == '\u{202F}'
    ||| c == '\u{205F}'
    ||| c == '\u{3000}'
}

/// Whether `c` ends a bare token.
pub open spec fn is_delimiter(c: char) -> bool {
    is_ws(c) || c == '(' || c == ')' || c == ';'
}

pub open spec fn bo(s: Seq<char>, i: int) -> usize {
    byte_offset(s, i) as usize
}

pub open spec fn span_of(s: Seq<char>, a: int, b: int) -> Span {
    Span { start: bo(s, a), end: bo(s, b) }
}

pub open spec fn err_at(kind: ErrorKind, message: Seq<char>, span: Span) -> ErrorSpec {
    ErrorSpec { kind, message, span }
}

/// Skips whitespace and `;` line comments; `comment` marks being inside one.
pub open spec fn spec_skip(s: Seq<char>, p: int, comment: bool) -> int
    decreases s.len() - p, if comment { 1int } else { 0int },
{
    if p < 0 || p >= s.len() {
        p
    } else if comment {
        if s[p] == '\n' {
            spec_skip(s, p, false)
        } else {
            spec_skip(s, p + 1, true)
        }
    } else if is_ws(s[p]) {
        spec_skip(s, p + 1, false)
    } else if s[p] == ';' {
        spec_skip(s, p + 1, true)
    } else {
        p
    }
}

pub open spec fn skip(s: Seq<char>, p: int) -> int {
    spec_skip(s, p, false)
}

/// End of the bare token starting at `p`.
pub open spec fn atom_end(s: Seq<char>, p: int) -> int
    decreases s.len() - p,
{
    if 0 <= p < s.len() && !is_delimiter(s[p]) {
        atom_end(s, p + 1)
    } else {
        p
    }
}

pub open spec fn seq_has(t: Seq<char>, c: char) -> bool {
    exists|i: int| 0 <= i < t.len() && t[i] == c
}

/// Index of the first `c` in `t` (or its length).
pub open spec fn first_index(t: Seq<char>, c: char, i: int) -> int
    decreases t.len() - i,
{
    if i < 0 || i >= t.len() || t[i] == c {
        i
    } else {
        first_index(t, c, i + 1)
    }
}

pub open spec fn comma_as_point(t: Seq<char>) -> Seq<char> {
    if seq_has(t, ',') && !seq_has(t, '.') {
        t.map_values(|c: char| if c == ',' { '.' } else { c })
    } else {
        t
    }
}

/// How a bare token reads.
pub enum TokenClass {
    Sym,
    Num(int),
    Rat(int, int),
    Overflow,
}

pub open spec fn precise(v: int) -> bool {
    -9007199254740992 <= v <= 9007199254740992
}

/// Classification of a bare token: a fraction `n/d`, a decimal literal
/// (any token holding `.`, `,`, `e` or `E`), an integer, or a symbol.
pub open spec fn classify(t: Seq<char>) -> TokenClass {
    if seq_has(t, '/') {
        let k = first_index(t, '/', 0);
        let n = integer_numeral(t.take(k));
        let d = integer_numeral(t.skip(k + 1));
        if !(n is Value) || !(d is Value) {
            TokenClass::Sym
        } else {
            let a = n->Value_0;
            let b = d->Value_0;
            if b == 0 {
                TokenClass::Sym
            } else {
                TokenClass::Rat(reduce(a, b).0, reduce(a, b).1)
            }
        }
    } else if seq_has(t, '.') || seq_has(t, ',') || seq_has(t, 'e') || seq_has(t, 'E') {
        match decimal_numeral(comma_as_point(t)) {
            NumeralSpec::Invalid => TokenClass::Sym,
            NumeralSpec::TooLarge => TokenClass::Overflow,
            NumeralSpec::Value(a, b) => {
                let r = reduce(a, b);
                if r.1 == 1 && precise(r.0) {
                    TokenClass::Num(r.0)
                } else {
                    TokenClass::Rat(r.0, r.1)
                }
            },
        }
    } else {
        match integer_numeral(t) {
            NumeralSpec::Value(a, _) => {
                if precise(a) {
                    TokenClass::Num(a)
                } else {
                    TokenClass::Rat(a, 1)
                }
            },
            _ => TokenClass::Sym,
        }
    }
}

pub type Read = Result<(Syntax, int), ErrorSpec>;

/// The bare token at `p` (which is not a delimiter).
pub open spec fn spec_atom(s: Seq<char>, p: int) -> Read {
    let e = atom_end(s, p);
    let t = s.subrange(p, e);
    let span = span_of(s, p, e);
    match classify(t) {
        TokenClass::Sym => Ok((Syntax { datum: Datum::Sym(t), span }, e)),
        TokenClass::Num(v) => Ok((Syntax { datum: Datum::Number(v), span }, e)),
        TokenClass::Rat(a, b) => Ok((Syntax { datum: Datum::Rational(a, b), span }, e)),
        TokenClass::Overflow => Err(err_at(ErrorKind::NumericOverflow, MSG_NUMERIC_LIMIT@, span)),
    }
}

pub open spec fn escape_char(c: char) -> char {
    if c == 'n' {
        '\n'
    } else if c == 't' {
        '\t'
    } else if c == 'r' {
        '\r'
    } else {
        c
    }
}

/// The body of a string literal opened at `start`, read from `p`.
pub open spec fn spec_string(s: Seq<char>, p: int, start: int, acc: Seq<char>) -> Read
    decreases s.len() - p,
{
    if p < 0 || p >= s.len() {
        Err(err_at(ErrorKind::Parse, MSG_UNCLOSED_STRING@, span_of(s, start, s.len() as int)))
    } else if s[p] == '"' {
        Ok((Syntax { datum: Datum::Str(acc), span: span_of(s, start, p + 1) }, p + 1))
    } else if s[p] == '\\' {
        if p + 1 >= s.len() {
            Err(
                err_at(
                    ErrorKind::Parse,
                    MSG_UNFINISHED_ESCAPE@,
                    span_of(s, start, s.len() as int),
                ),
            )
        } else {
            spec_string(s, p + 2, start, acc.push(escape_char(s[p + 1])))
        }
    } else {
        spec_string(s, p + 1, start, acc.push(s[p]))
    }
}

/// `(a b . c)`: the items folded onto the tail, every node spanning the list.
pub open spec fn dotted(items: Seq<Syntax>, tail: Syntax, span: Span) -> Syntax
    decreases items.len(),
{
    if items.len() == 0 {
        tail
    } else {
        Syntax {
            datum: Datum::Pair(Box::new(items[0]), Box::new(dotted(items.drop_first(), tail, span))),
            span,
        }
    }
}

pub open spec fn is_dot(x: Syntax) -> bool {
    x.datum == Datum::Sym(seq!['.'])
}

pub open spec fn starts_with_at(s: Seq<char>, p: int, w: Seq<char>) -> bool {
    0 <= p && p + w.len() <= s.len() && s.subrange(p, p + w.len()) == w
}

/// One expression, after skipping whitespace and comments from `p`.
pub open spec fn spec_expr(s: Seq<char>, p: int, depth: nat) -> Read
    decreases s.len() - p, 1int,
{
    let q = skip(s, p);
    if q < p || q >= s.len() {
        Err(err_at(ErrorKind::Parse, MSG_EXPECTED_EXPRESSION@, span_of(s, q, q)))
    } else if q + 5 <= s.len() && (starts_with_at(s, q, "#i32("@) || starts_with_at(
        s,
        q,
        "#f32("@,
    )) {
        if depth + 1 > MAX_STRUCTURE_DEPTH {
            Err(err_at(ErrorKind::Parse, MSG_NESTING@, Span { start: bo(s, q), end: (bo(s, q) + 1) as usize }))
        } else {
            spec_buffer(s, q + 5, (depth + 1) as nat, q, s[q + 1] == 'f', Seq::empty())
        }
    } else if s[q] == '(' {
        if depth + 1 > MAX_STRUCTURE_DEPTH {
            Err(err_at(ErrorKind::Parse, MSG_NESTING@, Span { start: bo(s, q), end: (bo(s, q) + 1) as usize }))
        } else {
            spec_list(s, q + 1, (depth + 1) as nat, q, Seq::empty())
        }
    } else if s[q] == ')' {
        Err(err_at(ErrorKind::Parse, MSG_UNEXPECTED_CLOSE@, span_of(s, q, q + 1)))
    } else if s[q] == '"' {
        spec_string(s, q + 1, q, Seq::empty())
    } else if s[q] == '\'' {
        let r = skip(s, q + 1);
        if r < q + 1 || r >= s.len() {
            Err(err_at(ErrorKind::Parse, MSG_AFTER_APOSTROPHE@, span_of(s, q, r)))
        } else {
            match spec_expr(s, r, depth) {
                Err(e) => Err(e),
                Ok((x, e)) => {
                    let quote = Syntax { datum: Datum::Sym("quote"@), span: span_of(s, q, q + 1) };
                    Ok((Syntax { datum: Datum::List(seq![quote, x]), span: span_of(s, q, e) }, e))
                },
            }
        }
    } else {
        spec_atom(s, q)
    }
}

/// The items of a list opened at `start`, read from `p`.
pub open spec fn spec_list(s: Seq<char>, p: int, depth: nat, start: int, acc: Seq<Syntax>) -> Read
    decreases s.len() - p, 2int,
{
    let q = skip(s, p);
    if q < p || q >= s.len() {
        Err(err_at(ErrorKind::Parse, MSG_UNCLOSED_LIST@, span_of(s, start, q)))
    } else if s[q] == ')' {
        Ok((Syntax { datum: Datum::List(acc), span: span_of(s, start, q + 1) }, q + 1))
    } else {
        match spec_expr(s, q, depth) {
            Err(e) => Err(e),
            Ok((item, e)) => {
                if e <= q || e > s.len() {
                    Err(err_at(ErrorKind::Parse, MSG_EXPECTED_EXPRESSION@, span_of(s, q, q)))
                } else if is_dot(item) {
                    if acc.len() == 0 {
                        Err(err_at(ErrorKind::Parse, MSG_UNEXPECTED_DOT@, item.span))
                    } else {
                        let r = skip(s, e);
                        if r < e || r >= s.len() || s[r] == ')' {
                            Err(err_at(ErrorKind::Parse, MSG_AFTER_DOT@, span_of(s, r, r)))
                        } else {
                            match spec_expr(s, r, depth) {
                                Err(err) => Err(err),
                                Ok((tail, e2)) => {
                                    let r2 = skip(s, e2);
                                    if 0 <= r2 < s.len() && s[r2] == ')' {
                                        Ok((dotted(acc, tail, span_of(s, start, r2 + 1)), r2 + 1))
                                    } else {
                                        Err(err_at(ErrorKind::Parse, MSG_AFTER_TAIL@, span_of(s, r2, r2)))
                                    }
                                },
                            }
                        }
                    }
                } else {
                    spec_list(s, e, depth, start, acc.push(item))
                }
            },
        }
    }
}

/// One `#i32` element.
pub open spec fn i32_element(x: Syntax) -> Result<i32, ErrorSpec> {
    match x.datum {
        Datum::Number(v) => if i32::MIN <= v <= i32::MAX {
            Ok(v as i32)
        } else {
            Err(err_at(ErrorKind::NumericOverflow, MSG_I32_RANGE@, x.span))
        },
        Datum::Rational(a, b) => if b == 1 {
            if precise(a) && i32::MIN <= a <= i32::MAX {
                Ok(a as i32)
            } else {
                Err(err_at(ErrorKind::NumericOverflow, MSG_I32_RANGE@, x.span))
            }
        } else {
            Err(err_at(ErrorKind::Parse, MSG_I32_ELEMENTS@, x.span))
        },
        _ => Err(err_at(ErrorKind::Parse, MSG_I32_ELEMENTS@, x.span)),
    }
}

/// `2^128 - 2^103`: the magnitude from which rounding to the nearest
/// binary32 value (ties to even) gives an infinity, halfway between the
/// largest finite value `(2^24 - 1) * 2^104` and `2^128`.
pub open spec fn binary32_overflow() -> nat {
    340282356779733661637539395458142568448
}

/// One `#f32` element, as the exact value written; one that rounds to no
/// finite binary32 value is refused.
pub open spec fn f32_element(x: Syntax) -> Result<(int, int), ErrorSpec> {
    match x.datum {
        Datum::Number(v) => Ok((v, 1)),
        Datum::Rational(a, b) => if crate::rational::abs(a) >= binary32_overflow() * b {
            Err(err_at(ErrorKind::NumericOverflow, MSG_F32_RANGE@, x.span))
        } else {
            Ok((a, b))
        },
        _ => Err(err_at(ErrorKind::Parse, MSG_F32_ELEMENTS@, x.span)),
    }
}

/// Converts buffer elements in order; the first bad element decides the error.
pub open spec fn i32_elements(xs: Seq<Syntax>) -> Result<Seq<i32>, ErrorSpec>
    decreases xs.len(),
{
    if xs.len() == 0 {
        Ok(Seq::empty())
    } else {
        match i32_elements(xs.drop_last()) {
            Err(e) => Err(e),
            Ok(vs) => match i32_element(xs.last()) {
                Err(e) => Err(e),
                Ok(v) => Ok(vs.push(v)),
            },
        }
    }
}

pub open spec fn f32_elements(xs: Seq<Syntax>) -> Result<Seq<(int, int)>, ErrorSpec>
    decreases xs.len(),
{
    if xs.len() == 0 {
        Ok(Seq::empty())
    } else {
        match f32_elements(xs.drop_last()) {
            Err(e) => Err(e),
            Ok(vs) => match f32_element(xs.last()) {
                Err(e) => Err(e),
                Ok(v) => Ok(vs.push(v)),
            },
        }
    }
}

/// The elements of a numeric buffer opened at `start`, read from `p`.
pub open spec fn spec_buffer(
    s: Seq<char>,
    p: int,
    depth: nat,
    start: int,
    binary32: bool,
    acc: Seq<Syntax>,
) -> Read
    decreases s.len() - p, 2int,
{
    let q = skip(s, p);
    if q < p {
        Err(err_at(ErrorKind::Parse, MSG_UNCLOSED_BUFFER@, span_of(s, start, q)))
    } else if q < s.len() && s[q] == ')' {
        let span = span_of(s, start, q + 1);
        if binary32 {
            match f32_elements(acc) {
                Err(e) => Err(e),
                Ok(vs) => Ok((Syntax { datum: Datum::F32(vs), span }, q + 1)),
            }
        } else {
            match i32_elements(acc) {
                Err(e) => Err(e),
                Ok(vs) => Ok((Syntax { datum: Datum::I32(vs), span }, q + 1)),
            }
        }
    } else if q >= s.len() {
        Err(err_at(ErrorKind::Parse, MSG_UNCLOSED_BUFFER@, span_of(s, start, q)))
    } else {
        match spec_expr(s, q, depth) {
            Err(e) => Err(e),
            Ok((item, e)) => if e <= q || e > s.len() {
                Err(err_at(ErrorKind::Parse, MSG_EXPECTED_EXPRESSION@, span_of(s, q, q)))
            } else {
                spec_buffer(s, e, depth, start, binary32, acc.push(item))
            },
        }
    }
}

/// All top-level expressions from `p` on.
pub open spec fn spec_program(s: Seq<char>, p: int, acc: Seq<Syntax>) -> Result<Seq<Syntax>, ErrorSpec>
    decreases s.len() - p,
{
    let q = skip(s, p);
    if q < p || q >= s.len() {
        Ok(acc)
    } else {
        match spec_expr(s, q, 0) {
            Err(e) => Err(e),
            Ok((x, e)) => if e <= q || e > s.len() {
                Err(err_at(ErrorKind::Parse, MSG_EXPECTED_EXPRESSION@, span_of(s, q, q)))
            } else {
                spec_program(s, e, acc.push(x))
            },
        }
    }
}

/// What reading a whole source text yields.
pub open spec fn spec_parse(s: Seq<char>) -> Result<Seq<Syntax>, ErrorSpec> {
    spec_program(s, 0, Seq::empty())
}

// ---------------------------------------------------------------------------
// Implementation
// ---------------------------------------------------------------------------

pub open spec fn reads(r: Result<(Expr, usize, usize), LanguageError>, s: Seq<char>, expected: Read, from: int) -> bool {
    match r {
        Ok((x, q, qb)) => expected == Ok::<(Syntax, int), ErrorSpec>((x@, q as int)) && from < q
            <= s.len() && qb == byte_offset(s, q as int),
        Err(e) => expected == Err::<(Syntax, int), ErrorSpec>(e@),
    }
}

fn is_ws_exec(c: char) -> (b: bool)
    ensures
        b == is_ws(c),
{
    c == '\t' || c == '\n' || c == '\u{0B}' || c == '\u{0C}' || c == '\r' || c == ' ' || c
        == '\u{85}' || c == '\u{A0}' || c == '\u{1680}' || ('\u{2000}' <= c && c <= '\u{200A}')
        || c == '\u{2028}' || c == '\u{2029}' || c == '\u{202F}' || c == '\u{205F}' || c
        == '\u{3000}'
}

fn is_delimiter_exec(c: char) -> (b: bool)
    ensures
        b == is_delimiter(c),
{
    is_ws_exec(c) || c == '(' || c == ')' || c == ';'
}

/// Advances one character, keeping the byte offset in step.
pub(crate) fn step(s: &Vec<char>, p: usize, b: usize) -> (r: (usize, usize))
    requires
        p < s@.len(),
        b == byte_offset(s@, p as int),
        utf8_len(s@) <= usize::MAX,
    ensures
        r.0 == p + 1,
        r.1 == byte_offset(s@, p + 1),
        r.1 == b + char_width(s@[p as int]),
{
    let n = s.len();
    proof {
        lemma_byte_offset_step(s@, p as int);
        lemma_byte_offset_monotone(s@, p + 1, p + 1);
    }
    (p + 1, b + char_width_exec(s[p]))
}

pub proof fn lemma_skip_bounds(s: Seq<char>, p: int, comment: bool)
    requires
        0 <= p <= s.len(),
    ensures
        p <= spec_skip(s, p, comment) <= s.len(),
        spec_skip(s, p, comment) < s.len() ==> !is_ws(s[spec_skip(s, p, comment)])
            && s[spec_skip(s, p, comment)] != ';',
    decreases s.len() - p, if comment { 1int } else { 0int },
{
    if p < s.len() {
        if comment {
            if s[p] == '\n' {
                lemma_skip_bounds(s, p, false);
            } else {
                lemma_skip_bounds(s, p + 1, true);
            }
        } else if is_ws(s[p]) {
            lemma_skip_bounds(s, p + 1, false);
        } else if s[p] == ';' {
            lemma_skip_bounds(s, p + 1, true);
        }
    }
}

/// Skips whitespace and comments from `p`.
fn skip_exec(s: &Vec<char>, p: usize, b: usize) -> (r: (usize, usize))
    requires
        p <= s@.len(),
        b == byte_offset(s@, p as int),
        utf8_len(s@) <= usize::MAX,
    ensures
        r.0 == skip(s@, p as int),
        r.1 == byte_offset(s@, r.0 as int),
        p <= r.0 <= s@.len(),
{
    proof {
        lemma_skip_bounds(s@, p as int, false);
    }
    let mut i = p;
    let mut bi = b;
    let mut comment = false;
    loop
        invariant
            p <= i <= s@.len(),
            bi == byte_offset(s@, i as int),
            utf8_len(s@) <= usize::MAX,
            spec_skip(s@, i as int, comment) == skip(s@, p as int),
        decreases s@.len() - i, if comment { 1int } else { 0int },
    {
        if i >= s.len() {
            return (i, bi);
        }
        let c = s[i];
        if comment {
            if c == '\n' {
                comment = false;
            } else {
                let (ni, nb) = step(s, i, bi);
                i = ni;
                bi = nb;
            }
        } else if is_ws_exec(c) {
            let (ni, nb) = step(s, i, bi);
            i = ni;
            bi = nb;
        } else if c == ';' {
            let (ni, nb) = step(s, i, bi);
            i = ni;
            bi = nb;
            comment = true;
        } else {
            return (i, bi);
        }
    }
}

proof fn lemma_atom_end_bounds(s: Seq<char>, p: int)
    requires
        0 <= p <= s.len(),
    ensures
        p <= atom_end(s, p) <= s.len(),
        forall|i: int| p <= i < atom_end(s, p) ==> !is_delimiter(#[trigger] s[i]),
    decreases s.len() - p,
{
    if p < s.len() && !is_delimiter(s[p]) {
        lemma_atom_end_bounds(s, p + 1);
    }
}

fn has_char(t: &Vec<char>, c: char) -> (r: bool)
    ensures
        r == seq_has(t@, c),
{
    let mut i: usize = 0;
    while i < t.len()
        invariant
            i <= t@.len(),
            forall|k: int| 0 <= k < i ==> t@[k] != c,
        decreases t.len() - i,
    {
        if t[i] == c {
            return true;
        }
        i += 1;
    }
    false
}

fn first_index_exec(t: &Vec<char>, c: char) -> (r: usize)
    ensures
        r == first_index(t@, c, 0),
        r <= t@.len(),
{
    let mut i: usize = 0;
    while i < t.len() && t[i] != c
        invariant
            i <= t@.len(),
            first_index(t@, c, i as int) == first_index(t@, c, 0),
        decreases t.len() - i,
    {
        i += 1;
    }
    i
}

proof fn lemma_first_index(t: Seq<char>, c: char, i: int)
    requires
        0 <= i <= t.len(),
        exists|j: int| i <= j < t.len() && t[j] == c,
    ensures
        i <= first_index(t, c, i) < t.len(),
        t[first_index(t, c, i)] == c,
    decreases t.len() - i,
{
    if t[i] != c {
        lemma_first_index(t, c, i + 1);
    }
}

fn comma_as_point_exec(t: &Vec<char>) -> (r: Vec<char>)
    ensures
        r@ == comma_as_point(t@),
{
    if has_char(t, ',') && !has_char(t, '.') {
        let mut out: Vec<char> = Vec::new();
        let mut i: usize = 0;
        while i < t.len()
            invariant
                i <= t@.len(),
                out@ == t@.take(i as int).map_values(|c: char| if c == ',' { '.' } else { c }),
            decreases t.len() - i,
        {
            let c = t[i];
            out.push(if c == ',' { '.' } else { c });
            proof {
                assert(t@.take(i + 1) =~= t@.take(i as int).push(c));
                assert(t@.take(i + 1).map_values(|c: char| if c == ',' { '.' } else { c }) =~= t@.take(
                    i as int,
                ).map_values(|c: char| if c == ',' { '.' } else { c }).push(
                    if c == ',' { '.' } else { c },
                ));
            }
            i += 1;
        }
        proof {
            assert(t@.take(t@.len() as int) =~= t@);
        }
        out
    } else {
        let mut out: Vec<char> = Vec::new();
        let mut i: usize = 0;
        while i < t.len()
            invariant
                i <= t@.len(),
                out@ == t@.take(i as int),
            decreases t.len() - i,
        {
            out.push(t[i]);
            proof {
                assert(t@.take(i + 1) =~= t@.take(i as int).push(t@[i as int]));
            }
            i += 1;
        }
        proof {
            assert(t@.take(t@.len() as int) =~= t@);
        }
        out
    }
}

fn sub_vec(t: &Vec<char>, from: usize, to: usize) -> (r: Vec<char>)
    requires
        from <= to <= t@.len(),
    ensures
        r@ == t@.subrange(from as int, to as int),
{
    let mut out: Vec<char> = Vec::new();
    let mut i = from;
    while i < to
        invariant
            from <= i <= to <= t@.len(),
            out@ == t@.subrange(from as int, i as int),
        decreases to - i,
    {
        out.push(t[i]);
        proof {
            assert(t@.subrange(from as int, i + 1) =~= t@.subrange(from as int, i as int).push(
                t@[i as int],
            ));
        }
        i += 1;
    }
    out
}

/// The exec counterpart of `TokenClass`.
enum Class {
    Sym,
    Num(i64),
    Rat(Rational),
    Overflow,
}

spec fn class_matches(c: Class, t: TokenClass) -> bool {
    match (c, t) {
        (Class::Sym, TokenClass::Sym) => true,
        (Class::Overflow, TokenClass::Overflow) => true,
        (Class::Num(v), TokenClass::Num(w)) => v as int == w,
        (Class::Rat(r), TokenClass::Rat(a, b)) => r.view() == (a, b),
        _ => false,
    }
}

fn classify_exec(t: &Vec<char>) -> (r: Class)
    ensures
        class_matches(r, classify(t@)),
{
    if has_char(t, '/') {
        let k = first_index_exec(t, '/');
        let tn = t.len();
        proof {
            lemma_first_index(t@, '/', 0);
        }
        let num = sub_vec(t, 0, k);
        let den = sub_vec(t, k + 1, t.len());
        assert(num@ == t@.take(k as int));
        assert(den@ == t@.skip(k + 1));
        let n = read_integer(&num);
        let d = read_integer(&den);
        match (n, d) {
            (Numeral::Value(a, _), Numeral::Value(b, _)) => {
                match Rational::from_big(a, b) {
                    Some(r) => Class::Rat(r),
                    None => Class::Sym,
                }
            },
            _ => Class::Sym,
        }
    } else if has_char(t, '.') || has_char(t, ',') || has_char(t, 'e') || has_char(t, 'E') {
        let dt = comma_as_point_exec(t);
        match read_decimal(&dt) {
            Numeral::Invalid => Class::Sym,
            Numeral::TooLarge => Class::Overflow,
            Numeral::Value(a, b) => {
                let r = Rational::from_parts(a, b);
                match r.as_precise_i64() {
                    Some(v) => Class::Num(v),
                    None => Class::Rat(r),
                }
            },
        }
    } else {
        match read_integer(t) {
            Numeral::Value(a, one) => {
                proof {
                    crate::rational::lemma_reduce_integer(a@);
                }
                let r = Rational::from_parts(a, one);
                match r.as_precise_i64() {
                    Some(v) => Class::Num(v),
                    None => Class::Rat(r),
                }
            },
            _ => Class::Sym,
        }
    }
}

fn read_atom(s: &Vec<char>, p: usize, b: usize) -> (r: Result<(Expr, usize, usize), LanguageError>)
    requires
        p < s@.len(),
        !is_delimiter(s@[p as int]),
        b == byte_offset(s@, p as int),
        utf8_len(s@) <= usize::MAX,
    ensures
        reads(r, s@, spec_atom(s@, p as int), p as int),
{
    proof {
        lemma_atom_end_bounds(s@, p as int);
    }
    let mut e = p;
    let mut eb = b;
    while e < s.len() && !is_delimiter_exec(s[e])
        invariant
            p <= e <= s@.len(),
            eb == byte_offset(s@, e as int),
            utf8_len(s@) <= usize::MAX,
            atom_end(s@, e as int) == atom_end(s@, p as int),
        decreases s@.len() - e,
    {
        let (ne, neb) = step(s, e, eb);
        e = ne;
        eb = neb;
    }
    let t = sub_vec(s, p, e);
    let span = Span { start: b, end: eb };
    match classify_exec(&t) {
        Class::Sym => {
            let name = string_from_chars(s, p, e);
            Ok((Expr { kind: ExprKind::Symbol(name), span }, e, eb))
        },
        Class::Num(v) => Ok((Expr { kind: ExprKind::Number(v), span }, e, eb)),
        Class::Rat(r) => Ok((Expr { kind: ExprKind::Rational(r), span }, e, eb)),
        Class::Overflow => Err(LanguageError::new(ErrorKind::NumericOverflow, owned(MSG_NUMERIC_LIMIT), span)),
    }
}

fn escape_char_exec(c: char) -> (r: char)
    ensures
        r == escape_char(c),
{
    if c == 'n' {
        '\n'
    } else if c == 't' {
        '\t'
    } else if c == 'r' {
        '\r'
    } else {
        c
    }
}

fn read_string(s: &Vec<char>, p: usize, b: usize) -> (r: Result<(Expr, usize, usize), LanguageError>)
    requires
        p < s@.len(),
        s@[p as int] == '"',
        b == byte_offset(s@, p as int),
        utf8_len(s@) <= usize::MAX,
    ensures
        reads(r, s@, spec_string(s@, p + 1, p as int, Seq::empty()), p as int),
{
    let (mut i, mut bi) = step(s, p, b);
    let mut value = String::new();
    proof {
        lemma_byte_offset_monotone(s@, s@.len() as int, s@.len() as int);
    }
    loop
        invariant
            p < i <= s@.len(),
            bi == byte_offset(s@, i as int),
            b == byte_offset(s@, p as int),
            utf8_len(s@) <= usize::MAX,
            spec_string(s@, i as int, p as int, value@) == spec_string(s@, p + 1, p as int, Seq::empty()),
        decreases s@.len() - i,
    {
        if i >= s.len() {
            proof {
                lemma_byte_offset_monotone(s@, s@.len() as int, s@.len() as int);
            }
            return Err(LanguageError::new(ErrorKind::Parse, owned(MSG_UNCLOSED_STRING), Span { start: b, end: bi }));
        }
        let c = s[i];
        if c == '"' {
            let (ni, nb) = step(s, i, bi);
            return Ok((Expr { kind: ExprKind::String(value), span: Span { start: b, end: nb } }, ni, nb));
        } else if c == '\\' {
            let (ni, nb) = step(s, i, bi);
            if ni >= s.len() {
                return Err(LanguageError::new(ErrorKind::Parse, owned(MSG_UNFINISHED_ESCAPE), Span { start: b, end: nb }));
            }
            crate::text::push_char(&mut value, escape_char_exec(s[ni]));
            let (n2, b2) = step(s, ni, nb);
            i = n2;
            bi = b2;
        } else {
            crate::text::push_char(&mut value, c);
            let (ni, nb) = step(s, i, bi);
            i = ni;
            bi = nb;
        }
    }
}

pub(crate) fn starts_with_at_exec(s: &Vec<char>, p: usize, w: &str) -> (r: bool)
    requires
        p <= s@.len(),
    ensures
        r == starts_with_at(s@, p as int, w@),
{
    let wc = chars_of(w);
    let n = s.len();
    if wc.len() > n - p {
        return false;
    }
    let mut k: usize = 0;
    while k < wc.len()
        invariant
            k <= wc@.len(),
            n == s@.len(),
            wc@ == w@,
            p + wc@.len() <= s@.len(),
            forall|j: int| 0 <= j < k ==> s@[p + j] == wc@[j],
        decreases wc.len() - k,
    {
        if s[p + k] != wc[k] {
            proof {
                assert(s@.subrange(p as int, p + wc@.len())[k as int] == s@[p + k]);
            }
            return false;
        }
        k += 1;
    }
    proof {
        assert(s@.subrange(p as int, p + wc@.len()) =~= wc@);
    }
    true
}

proof fn lemma_i32_prefix_error(xs: Seq<Syntax>, k: int)
    requires
        0 <= k <= xs.len(),
        i32_elements(xs.take(k)) is Err,
    ensures
        i32_elements(xs) == i32_elements(xs.take(k)),
    decreases xs.len() - k,
{
    if k < xs.len() {
        assert(xs.take(k + 1).drop_last() =~= xs.take(k));
        lemma_i32_prefix_error(xs, k + 1);
    } else {
        assert(xs.take(k) =~= xs);
    }
}

proof fn lemma_f32_prefix_error(xs: Seq<Syntax>, k: int)
    requires
        0 <= k <= xs.len(),
        f32_elements(xs.take(k)) is Err,
    ensures
        f32_elements(xs) == f32_elements(xs.take(k)),
    decreases xs.len() - k,
{
    if k < xs.len() {
        assert(xs.take(k + 1).drop_last() =~= xs.take(k));
        lemma_f32_prefix_error(xs, k + 1);
    } else {
        assert(xs.take(k) =~= xs);
    }
}

fn i32_buffer(items: &Vec<Expr>) -> (r: Result<Vec<i32>, LanguageError>)
    ensures
        match r {
            Ok(v) => i32_elements(views(items@)) == Ok::<Seq<i32>, ErrorSpec>(v@),
            Err(e) => i32_elements(views(items@)) == Err::<Seq<i32>, ErrorSpec>(e@),
        },
{
    let ghost xs = views(items@);
    let mut out: Vec<i32> = Vec::new();
    let mut i: usize = 0;
    proof {
        assert(xs.take(0) =~= Seq::<Syntax>::empty());
    }
    while i < items.len()
        invariant
            i <= items@.len(),
            xs == views(items@),
            i32_elements(xs.take(i as int)) == Ok::<Seq<i32>, ErrorSpec>(out@),
        decreases items.len() - i,
    {
        let x = &items[i];
        proof {
            assert(xs.take(i + 1).drop_last() =~= xs.take(i as int));
            assert(xs.take(i + 1).last() == x@);
        }
        let v: Result<i32, LanguageError> = match &x.kind {
            ExprKind::Number(n) => {
                if -2147483648 <= *n && *n <= 2147483647 {
                    Ok(*n as i32)
                } else {
                    Err(LanguageError::new(ErrorKind::NumericOverflow, owned(MSG_I32_RANGE), x.span))
                }
            },
            ExprKind::Rational(q) => {
                if q.is_integer() {
                    match q.as_precise_i64() {
                        Some(n) => if -2147483648 <= n && n <= 2147483647 {
                            Ok(n as i32)
                        } else {
                            Err(LanguageError::new(ErrorKind::NumericOverflow, owned(MSG_I32_RANGE), x.span))
                        },
                        None => Err(LanguageError::new(ErrorKind::NumericOverflow, owned(MSG_I32_RANGE), x.span)),
                    }
                } else {
                    Err(LanguageError::new(ErrorKind::Parse, owned(MSG_I32_ELEMENTS), x.span))
                }
            },
            _ => Err(LanguageError::new(ErrorKind::Parse, owned(MSG_I32_ELEMENTS), x.span)),
        };
        match v {
            Ok(n) => {
                out.push(n);
            },
            Err(e) => {
                proof {
                    lemma_i32_prefix_error(xs, i + 1);
                }
                return Err(e);
            },
        }
        i += 1;
    }
    proof {
        assert(xs.take(items@.len() as int) =~= xs);
    }
    Ok(out)
}

fn binary32_overflow_exec() -> (r: BigNat)
    ensures
        r@ == binary32_overflow(),
{
    let high = BigNat::from_u64(4503599627370496);
    let low = BigNat::from_u64(2251799813685248);
    let scale = high.mul(&low);
    BigNat::from_u64(33554431).mul(&scale)
}

fn f32_buffer(items: &Vec<Expr>) -> (r: Result<Vec<Rational>, LanguageError>)
    ensures
        match r {
            Ok(v) => f32_elements(views(items@)) == Ok::<Seq<(int, int)>, ErrorSpec>(
                NumericBuffer::F32(v).view()->F32_0,
            ),
            Err(e) => f32_elements(views(items@)) == Err::<Seq<(int, int)>, ErrorSpec>(e@),
        },
{
    let ghost xs = views(items@);
    let mut out: Vec<Rational> = Vec::new();
    let mut i: usize = 0;
    proof {
        assert(xs.take(0) =~= Seq::<Syntax>::empty());
        assert(NumericBuffer::F32(out).view()->F32_0 =~= Seq::<(int, int)>::empty());
    }
    while i < items.len()
        invariant
            i <= items@.len(),
            xs == views(items@),
            f32_elements(xs.take(i as int)) == Ok::<Seq<(int, int)>, ErrorSpec>(
                NumericBuffer::F32(out).view()->F32_0,
            ),
        decreases items.len() - i,
    {
        let x = &items[i];
        proof {
            assert(xs.take(i + 1).drop_last() =~= xs.take(i as int));
            assert(xs.take(i + 1).last() == x@);
        }
        let v: Result<Rational, LanguageError> = match &x.kind {
            ExprKind::Number(n) => Ok(Rational::integer(*n)),
            ExprKind::Rational(q) => if !q.magnitude_below(&binary32_overflow_exec()) {
                Err(LanguageError::new(ErrorKind::NumericOverflow, owned(MSG_F32_RANGE), x.span))
            } else {
                Ok(q.duplicate())
            },
            _ => Err(LanguageError::new(ErrorKind::Parse, owned(MSG_F32_ELEMENTS), x.span)),
        };
        match v {
            Ok(q) => {
                let ghost before = NumericBuffer::F32(out).view()->F32_0;
                out.push(q);
                proof {
                    assert(NumericBuffer::F32(out).view()->F32_0 =~= before.push(q.view()));
                }
            },
            Err(e) => {
                proof {
                    lemma_f32_prefix_error(xs, i + 1);
                }
                return Err(e);
            },
        }
        i += 1;
    }
    proof {
        assert(xs.take(items@.len() as int) =~= xs);
    }
    Ok(out)
}

fn nesting_error(b: usize) -> (r: LanguageError)
    requires
        b < usize::MAX,
    ensures
        r@ == err_at(ErrorKind::Parse, MSG_NESTING@, Span { start: b, end: (b + 1) as usize }),
{
    LanguageError::new(ErrorKind::Parse, owned(MSG_NESTING), Span { start: b, end: b + 1 })
}

fn read_expr(s: &Vec<char>, p: usize, b: usize, depth: u32) -> (r: Result<(Expr, usize, usize), LanguageError>)
    requires
        p <= s@.len(),
        b == byte_offset(s@, p as int),
        utf8_len(s@) <= usize::MAX,
        depth <= MAX_STRUCTURE_DEPTH,
    ensures
        reads(r, s@, spec_expr(s@, p as int, depth as nat), p as int),
    decreases s@.len() - p, 1int,
{
    let (q, qb) = skip_exec(s, p, b);
    if q >= s.len() {
        return Err(LanguageError::new(ErrorKind::Parse, owned(MSG_EXPECTED_EXPRESSION), Span { start: qb, end: qb }));
    }
    proof {
        lemma_byte_offset_step(s@, q as int);
        lemma_byte_offset_monotone(s@, q + 1, q + 1);
        lemma_skip_bounds(s@, p as int, false);
    }
    let i32_start = starts_with_at_exec(s, q, "#i32(");
    let f32_start = starts_with_at_exec(s, q, "#f32(");
    proof {
        reveal_strlit("#i32(");
        reveal_strlit("#f32(");
    }
    if i32_start || f32_start {
        if depth + 1 > MAX_STRUCTURE_DEPTH {
            return Err(nesting_error(qb));
        }
        proof {
            reveal_strlit("#i32(");
            reveal_strlit("#f32(");
            assert(s@.subrange(q as int, q + 5)[1] == s@[q + 1]);
        }
        let is_f32 = s[q + 1] == 'f';
        // the five characters of the opening marker are ASCII
        let mut i = q;
        let mut bi = qb;
        let mut k: usize = 0;
        while k < 5
            invariant
                q <= i <= q + 5 <= s@.len(),
                i == q + k,
                bi == byte_offset(s@, i as int),
                utf8_len(s@) <= usize::MAX,
            decreases 5 - k,
        {
            let (ni, nb) = step(s, i, bi);
            i = ni;
            bi = nb;
            k += 1;
        }
        return read_buffer(s, i, bi, depth + 1, q, qb, is_f32);
    }
    let c = s[q];
    if c == '(' {
        if depth + 1 > MAX_STRUCTURE_DEPTH {
            return Err(nesting_error(qb));
        }
        let (i, bi) = step(s, q, qb);
        return read_list(s, i, bi, depth + 1, q, qb);
    }
    if c == ')' {
        let (_, nb) = step(s, q, qb);
        return Err(LanguageError::new(ErrorKind::Parse, owned(MSG_UNEXPECTED_CLOSE), Span { start: qb, end: nb }));
    }
    if c == '"' {
        return read_string(s, q, qb);
    }
    if c == '\'' {
        let (i, bi) = step(s, q, qb);
        let (r, rb) = skip_exec(s, i, bi);
        if r >= s.len() {
            return Err(LanguageError::new(ErrorKind::Parse, owned(MSG_AFTER_APOSTROPHE), Span { start: qb, end: rb }));
        }
        match read_expr(s, r, rb, depth) {
            Err(e) => {
                return Err(e);
            },
            Ok((x, e, eb)) => {
                let quote = Expr { kind: ExprKind::Symbol(owned("quote")), span: Span { start: qb, end: bi } };
                let mut items: Vec<Expr> = Vec::new();
                items.push(quote);
                items.push(x);
                let result = Expr { kind: ExprKind::List(items), span: Span { start: qb, end: eb } };
                proof {
                    crate::syntax::lemma_list_view(&result, &items);
                    assert(views(items@) =~= seq![items@[0]@, items@[1]@]);
                }
                return Ok((result, e, eb));
            },
        }
    }
    proof {
        lemma_skip_bounds(s@, p as int, false);
    }
    read_atom(s, q, qb)
}

fn read_list(s: &Vec<char>, p: usize, b: usize, depth: u32, start: usize, start_b: usize) -> (r: Result<(Expr, usize, usize), LanguageError>)
    requires
        start < p <= s@.len(),
        b == byte_offset(s@, p as int),
        start_b == byte_offset(s@, start as int),
        utf8_len(s@) <= usize::MAX,
        depth <= MAX_STRUCTURE_DEPTH,
    ensures
        reads(r, s@, spec_list(s@, p as int, depth as nat, start as int, Seq::empty()), start as int),
    decreases s@.len() - p, 2int,
{
    let mut items: Vec<Expr> = Vec::new();
    let mut i = p;
    let mut bi = b;
    proof {
        assert(views(items@) =~= Seq::<Syntax>::empty());
    }
    loop
        invariant
            start < p <= i <= s@.len(),
            bi == byte_offset(s@, i as int),
            start_b == byte_offset(s@, start as int),
            utf8_len(s@) <= usize::MAX,
            depth <= MAX_STRUCTURE_DEPTH,
            spec_list(s@, i as int, depth as nat, start as int, views(items@)) == spec_list(
                s@,
                p as int,
                depth as nat,
                start as int,
                Seq::empty(),
            ),
        decreases s@.len() - i,
    {
        let (q, qb) = skip_exec(s, i, bi);
        if q >= s.len() {
            return Err(LanguageError::new(ErrorKind::Parse, owned(MSG_UNCLOSED_LIST), Span { start: start_b, end: qb }));
        }
        if s[q] == ')' {
            let (e, eb) = step(s, q, qb);
            let result = Expr { kind: ExprKind::List(items), span: Span { start: start_b, end: eb } };
            proof {
                crate::syntax::lemma_list_view(&result, &items);
            }
            return Ok((result, e, eb));
        }
        match read_expr(s, q, qb, depth) {
            Err(err) => {
                return Err(err);
            },
            Ok((item, e, eb)) => {
                let is_dot = match &item.kind {
                    ExprKind::Symbol(name) => crate::text::string_eq(name, "."),
                    _ => false,
                };
                proof {
                    reveal_strlit(".");
                    assert(is_dot == crate::reader::is_dot(item@)) by {
                        if item@.datum is Sym {
                            assert(".".view() =~= seq!['.']);
                        }
                    }
                }
                if is_dot {
                    if items.len() == 0 {
                        return Err(LanguageError::new(ErrorKind::Parse, owned(MSG_UNEXPECTED_DOT), item.span));
                    }
                    let (r, rb) = skip_exec(s, e, eb);
                    if r >= s.len() || s[r] == ')' {
                        return Err(LanguageError::new(ErrorKind::Parse, owned(MSG_AFTER_DOT), Span { start: rb, end: rb }));
                    }
                    match read_expr(s, r, rb, depth) {
                        Err(err) => {
                            return Err(err);
                        },
                        Ok((tail, e2, e2b)) => {
                            let (r2, r2b) = skip_exec(s, e2, e2b);
                            if r2 < s.len() && s[r2] == ')' {
                                let (end, endb) = step(s, r2, r2b);
                                let span = Span { start: start_b, end: endb };
                                let result = dotted_exec(items, tail, span);
                                return Ok((result, end, endb));
                            }
                            return Err(LanguageError::new(ErrorKind::Parse, owned(MSG_AFTER_TAIL), Span { start: r2b, end: r2b }));
                        },
                    }
                }
                let ghost before = views(items@);
                items.push(item);
                proof {
                    assert(views(items@) =~= before.push(item@));
                }
                i = e;
                bi = eb;
            },
        }
    }
}

fn dotted_exec(items: Vec<Expr>, tail: Expr, span: Span) -> (r: Expr)
    ensures
        r@ == dotted(views(items@), tail@, span),
{
    let ghost orig = views(items@);
    let ghost n = items@.len();
    let mut items = items;
    let mut acc = tail;
    proof {
        assert(orig.subrange(n as int, n as int) =~= Seq::<Syntax>::empty());
    }
    while items.len() > 0
        invariant
            items@.len() <= n,
            orig.len() == n,
            views(items@) =~= orig.take(items@.len() as int),
            acc@ == dotted(orig.subrange(items@.len() as int, n as int), tail@, span),
        decreases items.len(),
    {
        let ghost k = items@.len();
        let ghost old_items = items@;
        let x = items.pop().unwrap();
        proof {
            assert(old_items[k - 1] == x);
            assert(views(old_items)[k - 1] == x@);
            assert(x@ == orig[k - 1]);
            assert(orig.subrange(k - 1, n as int).drop_first() =~= orig.subrange(k as int, n as int));
            assert(views(items@) =~= orig.take(k - 1));
        }
        acc = Expr { kind: ExprKind::Pair(Box::new(x), Box::new(acc)), span };
    }
    proof {
        assert(orig.subrange(0, n as int) =~= orig);
    }
    acc
}

fn read_buffer(
    s: &Vec<char>,
    p: usize,
    b: usize,
    depth: u32,
    start: usize,
    start_b: usize,
    is_f32: bool,
) -> (r: Result<(Expr, usize, usize), LanguageError>)
    requires
        start < p <= s@.len(),
        b == byte_offset(s@, p as int),
        start_b == byte_offset(s@, start as int),
        utf8_len(s@) <= usize::MAX,
        depth <= MAX_STRUCTURE_DEPTH,
    ensures
        reads(r, s@, spec_buffer(s@, p as int, depth as nat, start as int, is_f32, Seq::empty()), start as int),
    decreases s@.len() - p, 2int,
{
    let mut items: Vec<Expr> = Vec::new();
    let mut i = p;
    let mut bi = b;
    proof {
        assert(views(items@) =~= Seq::<Syntax>::empty());
    }
    loop
        invariant
            start < p <= i <= s@.len(),
            bi == byte_offset(s@, i as int),
            start_b == byte_offset(s@, start as int),
            utf8_len(s@) <= usize::MAX,
            depth <= MAX_STRUCTURE_DEPTH,
            spec_buffer(s@, i as int, depth as nat, start as int, is_f32, views(items@)) == spec_buffer(
                s@,
                p as int,
                depth as nat,
                start as int,
                is_f32,
                Seq::empty(),
            ),
        decreases s@.len() - i,
    {
        let (q, qb) = skip_exec(s, i, bi);
        if q < s.len() && s[q] == ')' {
            let (e, eb) = step(s, q, qb);
            let span = Span { start: start_b, end: eb };
            if is_f32 {
                match f32_buffer(&items) {
                    Err(err) => {
                        return Err(err);
                    },
                    Ok(values) => {
                        let result = Expr { kind: ExprKind::NumericBuffer(NumericBuffer::F32(values)), span };
                        return Ok((result, e, eb));
                    },
                }
            } else {
                match i32_buffer(&items) {
                    Err(err) => {
                        return Err(err);
                    },
                    Ok(values) => {
                        let result = Expr { kind: ExprKind::NumericBuffer(NumericBuffer::I32(values)), span };
                        return Ok((result, e, eb));
                    },
                }
            }
        }
        if q >= s.len() {
            return Err(LanguageError::new(ErrorKind::Parse, owned(MSG_UNCLOSED_BUFFER), Span { start: start_b, end: qb }));
        }
        match read_expr(s, q, qb, depth) {
            Err(err) => {
                return Err(err);
            },
            Ok((item, e, eb)) => {
                let ghost before = views(items@);
                items.push(item);
                proof {
                    assert(views(items@) =~= before.push(item@));
                }
                i = e;
                bi = eb;
            },
        }
    }
}

/// Reads every top-level expression of `source`.
pub fn parse(source: &str) -> (r: Result<Vec<Expr>, LanguageError>)
    ensures
        match r {
            Ok(v) => spec_parse(source@) == Ok::<Seq<Syntax>, ErrorSpec>(views(v@)),
            Err(e) => spec_parse(source@) == Err::<Seq<Syntax>, ErrorSpec>(e@),
        },
{
    let s = chars_of(source);
    parse_chars(&s)
}

/// Reads every top-level expression of a character sequence.
pub fn parse_chars(s: &Vec<char>) -> (r: Result<Vec<Expr>, LanguageError>)
    requires
        utf8_len(s@) <= usize::MAX,
    ensures
        match r {
            Ok(v) => spec_parse(s@) == Ok::<Seq<Syntax>, ErrorSpec>(views(v@)),
            Err(e) => spec_parse(s@) == Err::<Seq<Syntax>, ErrorSpec>(e@),
        },
{
    let mut out: Vec<Expr> = Vec::new();
    let mut i: usize = 0;
    let mut bi: usize = 0;
    proof {
        assert(s@.take(0) =~= Seq::<char>::empty());
        assert(views(out@) =~= Seq::<Syntax>::empty());
    }
    loop
        invariant
            i <= s@.len(),
            bi == byte_offset(s@, i as int),
            utf8_len(s@) <= usize::MAX,
            spec_program(s@, i as int, views(out@)) == spec_parse(s@),
        decreases s@.len() - i,
    {
        let (q, qb) = skip_exec(s, i, bi);
        if q >= s.len() {
            return Ok(out);
        }
        match read_expr(s, q, qb, 0) {
            Err(e) => {
                return Err(e);
            },
            Ok((x, e, eb)) => {
                let ghost before = views(out@);
                out.push(x);
                proof {
                    assert(views(out@) =~= before.push(x@));
                }
                i = e;
                bi = eb;
            },
        }
    }
}

/// Law: inside a string literal, a backslash escape stands for one
/// character: `\n` for a line feed (U+000A), `\t` for a tab (U+0009), `\r`
/// for a carriage return (U+000D), and any other character for itself (so
/// `\"` for a quote and `\\` for a backslash); reading goes on after it.
pub proof fn law_string_escapes(s: Seq<char>, p: int, start: int, acc: Seq<char>)
    requires
        0 <= p,
        p + 1 < s.len(),
        s[p] == '\\',
    ensures
        spec_string(s, p, start, acc) == spec_string(
            s,
            p + 2,
            start,
            acc.push(
                if s[p + 1] == 'n' {
                    '\u{0A}'
                } else if s[p + 1] == 't' {
                    '\u{09}'
                } else if s[p + 1] == 'r' {
                    '\u{0D}'
                } else {
                    s[p + 1]
                },
            ),
        ),
{
}

} // verus!
