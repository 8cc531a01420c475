//! Structured language errors: a kind, a message and the source span the
//! error refers to, plus the (line, column) view of that span.
use vstd::prelude::*;
use crate::syntax::Span;
use crate::text::{
    byte_offset, char_width_exec, chars_of, decimal_digits, lemma_byte_offset_monotone,
    lemma_byte_offset_step, lemma_len_le_utf8_len, push_char, push_decimal, push_str, utf8_len,
};

verus! {

#[derive(Clone, Copy, Debug, PartialEq, Eq)]
pub enum ErrorKind {
    Parse,
    UnknownSymbol,
    Arity,
    Type,
    InvalidForm,
    OutOfMemory,
    NumericOverflow,
    DivisionByZero,
    MechanismUnavailable,
}

/// A language error as a mathematical value.
pub struct ErrorSpec {
    pub kind: ErrorKind,
    pub message: Seq<char>,
    pub span: Span,
}

#[derive(Debug)]
pub struct LanguageError {
    pub kind: ErrorKind,
    pub message: String,
    pub span: Span,
}

impl LanguageError {
    pub open spec fn view(&self) -> ErrorSpec {
        ErrorSpec { kind: self.kind, message: self.message@, span: self.span }
    }

    pub fn new(kind: ErrorKind, message: String, span: Span) -> (r: LanguageError)
        ensures
            r@ == (ErrorSpec { kind, message: message@, span }),
    {
        LanguageError { kind, message, span }
    }

    /// 1-indexed (line, column) of the span's start, counted in characters.
    /// Offsets past the end of the source clamp to its end.
    pub fn line_col(&self, source: &str) -> (r: (usize, usize))
        requires
            self.span.start >= utf8_len(source@) || is_char_boundary_at(
                source@,
                self.span.start as int,
            ),
            source@.len() < usize::MAX,
        ensures
            r.0 == line_col_of(source@.take(char_index_at(source@, self.span.start as int, 0))).0,
            r.1 == line_col_of(source@.take(char_index_at(source@, self.span.start as int, 0))).1,
    {
        let chars = chars_of(source);
        proof {
            lemma_len_le_utf8_len(source@);
        }
        line_col_in(&chars, self.span.start)
    }
}

/// Line and column (both 1-based) just after the characters `p`.
pub open spec fn line_col_of(p: Seq<char>) -> (nat, nat)
    decreases p.len(),
{
    if p.len() == 0 {
        (1, 1)
    } else {
        let (l, c) = line_col_of(p.drop_last());
        if p.last() == '\n' {
            (l + 1, 1)
        } else {
            (l, c + 1)
        }
    }
}

/// The first character index at or after `i` whose byte offset reaches `b`
/// (the length of `s` when none does).
pub open spec fn char_index_at(s: Seq<char>, b: int, i: int) -> int
    decreases s.len() - i,
{
    if i < 0 || i >= s.len() || byte_offset(s, i) >= b {
        i
    } else {
        char_index_at(s, b, i + 1)
    }
}

/// Whether byte offset `b` starts a character (or ends the text).
pub open spec fn is_char_boundary_at(s: Seq<char>, b: int) -> bool {
    exists|i: int| 0 <= i <= s.len() && byte_offset(s, i) == b
}

/// (line, column) of the character boundary at or after byte offset `b`.
pub fn line_col_in(chars: &Vec<char>, b: usize) -> (r: (usize, usize))
    requires
        utf8_len(chars@) <= usize::MAX,
        chars@.len() < usize::MAX,
    ensures
        r.0 == line_col_of(chars@.take(char_index_at(chars@, b as int, 0))).0,
        r.1 == line_col_of(chars@.take(char_index_at(chars@, b as int, 0))).1,
{
    let mut i: usize = 0;
    let mut off: usize = 0;
    let mut line: usize = 1;
    let mut column: usize = 1;
    let ghost target = char_index_at(chars@, b as int, 0);
    proof {
        assert(chars@.take(0) =~= Seq::<char>::empty());
    }
    while i < chars.len() && off < b
        invariant
            i <= chars@.len() < usize::MAX,
            utf8_len(chars@) <= usize::MAX,
            off == byte_offset(chars@, i as int),
            char_index_at(chars@, b as int, i as int) == target,
            line == line_col_of(chars@.take(i as int)).0,
            column == line_col_of(chars@.take(i as int)).1,
            line <= i + 1,
            column <= i + 1,
        decreases chars.len() - i,
    {
        let c = chars[i];
        proof {
            lemma_byte_offset_step(chars@, i as int);
            lemma_byte_offset_monotone(chars@, i + 1, i + 1);
            assert(chars@.take(i + 1).drop_last() =~= chars@.take(i as int));
        }
        if c == '\n' {
            line = line + 1;
            column = 1;
        } else {
            column = column + 1;
        }
        off = off + char_width_exec(c);
        i = i + 1;
    }
    (line, column)
}

pub proof fn lemma_line_col_positive(p: Seq<char>)
    ensures
        line_col_of(p).0 >= 1,
        line_col_of(p).1 >= 1,
    decreases p.len(),
{
    if p.len() > 0 {
        lemma_line_col_positive(p.drop_last());
    }
}

/// Start index of line `n` (0-based) of `s`, from index `i` with `cur`
/// line breaks already passed.
pub open spec fn line_start(s: Seq<char>, n: nat, i: int, cur: nat) -> Option<int>
    decreases s.len() - i,
{
    if cur == n {
        Some(i)
    } else if i < 0 || i >= s.len() {
        None
    } else if s[i] == '\n' {
        line_start(s, n, i + 1, cur + 1)
    } else {
        line_start(s, n, i + 1, cur)
    }
}

/// End of the line that starts at `i`: the next line break or the end.
pub open spec fn line_end(s: Seq<char>, i: int) -> int
    decreases s.len() - i,
{
    if i < 0 || i >= s.len() || s[i] == '\n' {
        i
    } else {
        line_end(s, i + 1)
    }
}

/// Line `n` (0-based) as `str::lines` yields it: without its line break,
/// and without a carriage return just before that break; `None` past the
/// last line.
pub open spec fn nth_line(s: Seq<char>, n: nat) -> Option<Seq<char>> {
    match line_start(s, n, 0, 0) {
        Some(a) => if a < s.len() {
            let e = line_end(s, a);
            if e < s.len() && e > a && s[e - 1] == '\r' {
                Some(s.subrange(a, e - 1))
            } else {
                Some(s.subrange(a, e))
            }
        } else {
            None
        },
        None => None,
    }
}

pub open spec fn repeat(c: char, n: nat) -> Seq<char>
    decreases n,
{
    if n == 0 {
        Seq::empty()
    } else {
        repeat(c, (n - 1) as nat).push(c)
    }
}

/// The rendering of an error over `s`: message, location, the source line
/// and a caret underline as wide as the span (at least one caret).
pub open spec fn render_text(e: ErrorSpec, s: Seq<char>) -> Seq<char> {
    let start_i = char_index_at(s, e.span.start as int, 0);
    let (line, column) = line_col_of(s.take(start_i));
    let end_i = char_index_at(s, e.span.end as int, 0);
    let width = if end_i - start_i > 0 {
        (end_i - start_i) as nat
    } else {
        1nat
    };
    let gutter = decimal_digits(line);
    let indent = repeat(' ', gutter.len());
    let line_text = match nth_line(s, (line - 1) as nat) {
        Some(t) => t,
        None => Seq::empty(),
    };
    e.message + "\n"@ + indent + " --> line/рядок/Zeile "@ + decimal_digits(line) + ":"@
        + decimal_digits(column) + "\n"@ + indent + " |\n"@ + gutter + " | "@ + line_text + "\n"@
        + indent + " | "@ + repeat(' ', (column - 1) as nat) + repeat('^', width)
}

pub(crate) fn push_repeat(out: &mut String, c: char, n: usize)
    ensures
        final(out)@ == old(out)@ + repeat(c, n as nat),
{
    let mut i: usize = 0;
    while i < n
        invariant
            i <= n,
            out@ == old(out)@ + repeat(c, i as nat),
        decreases n - i,
    {
        push_char(out, c);
        proof {
            assert(repeat(c, (i + 1) as nat) == repeat(c, i as nat).push(c));
        }
        i += 1;
    }
}

/// The character index of the first boundary at or after byte `b`.
pub(crate) fn char_index_exec(chars: &Vec<char>, b: usize) -> (r: usize)
    requires
        utf8_len(chars@) <= usize::MAX,
    ensures
        r == char_index_at(chars@, b as int, 0),
        r <= chars@.len(),
{
    let mut i: usize = 0;
    let mut off: usize = 0;
    proof {
        assert(chars@.take(0) =~= Seq::<char>::empty());
    }
    while i < chars.len() && off < b
        invariant
            i <= chars@.len(),
            utf8_len(chars@) <= usize::MAX,
            off == byte_offset(chars@, i as int),
            char_index_at(chars@, b as int, i as int) == char_index_at(chars@, b as int, 0),
        decreases chars.len() - i,
    {
        proof {
            lemma_byte_offset_step(chars@, i as int);
            lemma_byte_offset_monotone(chars@, i + 1, i + 1);
        }
        off = off + char_width_exec(chars[i]);
        i = i + 1;
    }
    i
}

pub(crate) fn nth_line_exec(chars: &Vec<char>, n: usize) -> (r: Option<(usize, usize)>)
    ensures
        match r {
            Some((a, e)) => a <= e <= chars@.len() && nth_line(chars@, n as nat) == Some(
                chars@.subrange(a as int, e as int),
            ),
            None => nth_line(chars@, n as nat) is None,
        },
{
    let mut i: usize = 0;
    let mut cur: usize = 0;
    while cur < n
        invariant
            i <= chars@.len(),
            cur <= n,
            line_start(chars@, n as nat, i as int, cur as nat) == line_start(chars@, n as nat, 0, 0),
        decreases chars@.len() - i,
    {
        if i >= chars.len() {
            return None;
        }
        if chars[i] == '\n' {
            cur += 1;
        }
        i += 1;
    }
    if i >= chars.len() {
        return None;
    }
    let a = i;
    let mut e = a;
    while e < chars.len() && chars[e] != '\n'
        invariant
            a <= e <= chars@.len(),
            line_end(chars@, e as int) == line_end(chars@, a as int),
        decreases chars@.len() - e,
    {
        e += 1;
    }
    if e < chars.len() && e > a && chars[e - 1] == '\r' {
        Some((a, e - 1))
    } else {
        Some((a, e))
    }
}

impl LanguageError {
    /// A rustc-style rendering: the message, a line:column location, the
    /// source line, and a caret underline as wide as the span.
    pub fn render(&self, source: &str) -> (r: String)
        requires
            self.span.start >= utf8_len(source@) || is_char_boundary_at(source@, self.span.start as int),
            self.span.end >= utf8_len(source@) || is_char_boundary_at(source@, self.span.end as int),
            self.span.start <= self.span.end || self.span.end >= utf8_len(source@),
            source@.len() < usize::MAX,
        ensures
            r@ == render_text(self@, source@),
    {
        let chars = chars_of(source);
        proof {
            lemma_len_le_utf8_len(source@);
        }
        let (line, column) = line_col_in(&chars, self.span.start);
        proof {
            lemma_line_col_positive(chars@.take(char_index_at(chars@, self.span.start as int, 0)));
        }
        let si = char_index_exec(&chars, self.span.start);
        let ei = char_index_exec(&chars, self.span.end);
        let width: usize = if ei > si {
            ei - si
        } else {
            1
        };
        let gutter = crate::text::decimal_string(line as u64);
        let gl = crate::text::chars_of(gutter.as_str()).len();
        let mut out = String::new();
        push_str(&mut out, self.message.as_str());
        push_str(&mut out, "\n");
        push_repeat(&mut out, ' ', gl);
        push_str(&mut out, " --> line/рядок/Zeile ");
        push_decimal(&mut out, line as u64);
        push_str(&mut out, ":");
        push_decimal(&mut out, column as u64);
        push_str(&mut out, "\n");
        push_repeat(&mut out, ' ', gl);
        push_str(&mut out, " |\n");
        push_str(&mut out, gutter.as_str());
        push_str(&mut out, " | ");
        match nth_line_exec(&chars, line - 1) {
            Some((a, e)) => {
                let t = crate::text::string_from_chars(&chars, a, e);
                push_str(&mut out, t.as_str());
            },
            None => {},
        }
        push_str(&mut out, "\n");
        push_repeat(&mut out, ' ', gl);
        push_str(&mut out, " | ");
        push_repeat(&mut out, ' ', column - 1);
        push_repeat(&mut out, '^', width);
        proof {
            assert(out@ =~= render_text(self@, source@));
        }
        out
    }
}

} // verus!
