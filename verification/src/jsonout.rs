//! The JSON encoder of the language server: string escaping for the
//! messages it writes as text.
use vstd::prelude::*;
use crate::text::{chars_of, push_char, push_str};

verus! {

/// A lower-case hex digit.
pub open spec fn hex_digit(d: nat) -> char {
    if d < 10 {
        ((d + '0' as nat) as u32) as char
    } else {
        ((d - 10 + 'a' as nat) as u32) as char
    }
}

/// How one character is written inside a JSON string: quote, backslash and
/// the control characters are escaped, everything else stands as it is.
pub open spec fn escape_char(c: char) -> Seq<char> {
    if c == '"' {
        seq!['\\', '"']
    } else if c == '\\' {
        seq!['\\', '\\']
    } else if c == '\n' {
        seq!['\\', 'n']
    } else if c == '\r' {
        seq!['\\', 'r']
    } else if c == '\t' {
        seq!['\\', 't']
    } else if (c as u32) < 0x20 {
        seq!['\\', 'u', '0', '0', hex_digit((c as u32 / 16) as nat), hex_digit((c as u32 % 16) as nat)]
    } else {
        seq![c]
    }
}

/// The escaped form of a character sequence.
pub open spec fn escape_text(s: Seq<char>) -> Seq<char>
    decreases s.len(),
{
    if s.len() == 0 {
        Seq::empty()
    } else {
        escape_text(s.drop_last()) + escape_char(s.last())
    }
}

/// A JSON string literal holding `s`.
pub open spec fn str_lit_text(s: Seq<char>) -> Seq<char> {
    seq!['"'] + escape_text(s) + seq!['"']
}

fn hex_digit_exec(d: u32) -> (c: char)
    requires
        d < 16,
    ensures
        c == hex_digit(d as nat),
{
    if d < 10 {
        let x: u8 = (d as u8) + 48;
        assert((d + '0' as nat) as u32 == x as u32);
        x as char
    } else {
        let x: u8 = (d as u8) - 10 + 97;
        assert((d - 10 + 'a' as nat) as u32 == x as u32);
        x as char
    }
}

fn push_escaped(out: &mut String, c: char)
    ensures
        final(out)@ == old(out)@ + escape_char(c),
{
    if c == '"' {
        push_char(out, '\\');
        push_char(out, '"');
    } else if c == '\\' {
        push_char(out, '\\');
        push_char(out, '\\');
    } else if c == '\n' {
        push_char(out, '\\');
        push_char(out, 'n');
    } else if c == '\r' {
        push_char(out, '\\');
        push_char(out, 'r');
    } else if c == '\t' {
        push_char(out, '\\');
        push_char(out, 't');
    } else if (c as u32) < 0x20 {
        let u = c as u32;
        push_char(out, '\\');
        push_char(out, 'u');
        push_char(out, '0');
        push_char(out, '0');
        push_char(out, hex_digit_exec(u / 16));
        push_char(out, hex_digit_exec(u % 16));
    } else {
        push_char(out, c);
    }
}

/// Escapes a string for a JSON string literal.
pub fn escape(s: &str) -> (r: String)
    ensures
        r@ == escape_text(s@),
{
    let cs = chars_of(s);
    let mut out = String::new();
    let mut i: usize = 0;
    proof {
        assert(cs@.take(0) =~= Seq::<char>::empty());
    }
    while i < cs.len()
        invariant
            i <= cs@.len(),
            cs@ == s@,
            out@ == escape_text(cs@.take(i as int)),
        decreases cs.len() - i,
    {
        push_escaped(&mut out, cs[i]);
        proof {
            let t = cs@.take(i + 1);
            assert(t.drop_last() =~= cs@.take(i as int));
            assert(t.last() == cs@[i as int]);
        }
        i += 1;
    }
    proof {
        assert(cs@.take(cs@.len() as int) =~= cs@);
    }
    out
}

/// A JSON string literal holding `s`.
pub fn str_lit(s: &str) -> (r: String)
    ensures
        r@ == str_lit_text(s@),
{
    let mut out = String::new();
    push_char(&mut out, '"');
    let e = escape(s);
    push_str(&mut out, e.as_str());
    push_char(&mut out, '"');
    proof {
        assert(out@ =~= str_lit_text(s@));
    }
    out
}

} // verus!

verus! {

proof fn lemma_escape_concat(a: Seq<char>, b: Seq<char>)
    ensures
        escape_text(a + b) == escape_text(a) + escape_text(b),
    decreases b.len(),
{
    if b.len() == 0 {
        assert(a + b =~= a);
        assert(escape_text(a) + Seq::<char>::empty() =~= escape_text(a));
    } else {
        lemma_escape_concat(a, b.drop_last());
        assert((a + b).drop_last() =~= a + b.drop_last());
        assert((a + b).last() == b.last());
        assert(escape_text(a) + escape_text(b.drop_last()) + escape_char(b.last())
            =~= escape_text(a) + (escape_text(b.drop_last()) + escape_char(b.last())));
    }
}

proof fn lemma_hex_digit(d: nat)
    requires
        d < 16,
    ensures
        crate::json::is_hex(hex_digit(d)),
        crate::json::hex_value(hex_digit(d)) == d,
{
}

/// Reading the escaped form of one character gives that character back.
proof fn lemma_read_escaped(s: Seq<char>, p: int, c: char, acc: Seq<char>)
    requires
        0 <= p,
        p + escape_char(c).len() < s.len(),
        s.subrange(p, p + escape_char(c).len()) == escape_char(c),
    ensures
        crate::json::j_chars(s, p, acc) == crate::json::j_chars(s, p + escape_char(c).len(), acc.push(c)),
{
    let e = escape_char(c);
    assert(forall|k: int| 0 <= k < e.len() ==> s[p + k] == #[trigger] e[k]) by {
        assert forall|k: int| 0 <= k < e.len() implies s[p + k] == #[trigger] e[k] by {
            assert(s.subrange(p, p + e.len())[k] == s[p + k]);
        }
    }
    if c == '"' || c == '\\' || c == '\n' || c == '\r' || c == '\t' {
        assert(s[p] == '\\');
    } else if (c as u32) < 0x20 {
        let hi = (c as u32 / 16) as nat;
        let lo = (c as u32 % 16) as nat;
        lemma_hex_digit(hi);
        lemma_hex_digit(lo);
        assert(s[p] == '\\' && s[p + 1] == 'u');
        assert(s[p + 2] == '0' && s[p + 3] == '0' && s[p + 4] == hex_digit(hi) && s[p + 5] == hex_digit(lo));
        assert(crate::json::hex_run(s, p + 2, 0) == 4) by {
            assert(crate::json::hex_run(s, p + 2, 4) == 4);
            assert(crate::json::hex_run(s, p + 2, 3) == 4);
            assert(crate::json::hex_run(s, p + 2, 2) == 4);
            assert(crate::json::hex_run(s, p + 2, 1) == 4);
        }
        assert(crate::json::hex_value('0') == 0);
        let code = ((0int * 16 + 0) * 16 + hi) * 16 + lo;
        assert(code == c as u32);
        assert(crate::json::j_hex(s, p + 2) == Ok::<(int, int), Seq<char>>((code, p + 6)));
        assert(crate::json::scalar_char(code) == c);
    } else {
        assert(e[0] == c);
        assert(s[p] == c);
    }
}

/// The `j_chars` reading over the escaped form of `t` at `p` reaches the
/// end of the escapes with `t` read.
proof fn lemma_read_escaped_text(s: Seq<char>, t: Seq<char>, k: int)
    requires
        0 <= k <= t.len(),
        s == seq!['"'] + escape_text(t) + seq!['"'],
    ensures
        crate::json::j_chars(s, 1, Seq::empty()) == crate::json::j_chars(
            s,
            1 + escape_text(t.take(k)).len() as int,
            t.take(k),
        ),
    decreases k,
{
    if k == 0 {
        assert(t.take(0) =~= Seq::<char>::empty());
        assert(escape_text(Seq::<char>::empty()).len() == 0);
    } else {
        lemma_read_escaped_text(s, t, k - 1);
        let pre = t.take(k - 1);
        let c = t[k - 1];
        assert(t.take(k).drop_last() =~= pre);
        assert(t.take(k).last() == c);
        assert(escape_text(t.take(k)) == escape_text(pre) + escape_char(c));
        lemma_escape_concat(t.take(k), t.skip(k));
        assert(t.take(k) + t.skip(k) =~= t);
        let p: int = 1 + escape_text(pre).len() as int;
        let e = escape_char(c);
        let el: int = e.len() as int;
        assert(s.subrange(p, p + el) =~= e) by {
            assert forall|j: int| 0 <= j < el implies s.subrange(p, p + el)[j] == e[j] by {
                assert(escape_text(t) == escape_text(pre) + e + escape_text(t.skip(k)));
                assert(s[p + j] == (escape_text(pre) + e + escape_text(t.skip(k)))[p - 1 + j]);
            }
        }
        lemma_read_escaped(s, p, c, pre);
        assert(pre.push(c) =~= t.take(k));
    }
}

/// A JSON string literal decodes to the text it was made from.
pub proof fn law_string_literal_round_trip(t: Seq<char>)
    ensures
        crate::json::spec_parse_json(str_lit_text(t)) == Ok::<crate::value::Data, Seq<char>>(crate::value::Data::Str(t)),
{
    let s = str_lit_text(t);
    lemma_read_escaped_text(s, t, t.len() as int);
    assert(t.take(t.len() as int) =~= t);
    let end: int = 1 + escape_text(t).len() as int;
    assert(s[end] == '"');
    assert(crate::json::jws(s, 0) == 0);
    assert(crate::json::jws(s, end + 1) == end + 1);
}

} // verus!
