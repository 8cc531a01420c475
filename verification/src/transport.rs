//! Message framing of the language server: `Content-Length` headers.
use vstd::prelude::*;
use crate::numeral::{all_digits, digits_end, digits_value, is_digit};
use crate::reader::is_ws;
use crate::text::{chars_of, decimal_digits, lemma_utf8_len_matches_encoding, push_decimal, push_str, utf8_len};
use vstd::utf8::{decode_utf8, encode_utf8, encode_utf8_decode_utf8, encode_utf8_valid_utf8, valid_utf8};

verus! {

/// `s` without leading whitespace.
pub open spec fn trim_start(s: Seq<char>) -> Seq<char>
    decreases s.len(),
{
    if s.len() > 0 && is_ws(s[0]) {
        trim_start(s.drop_first())
    } else {
        s
    }
}

/// `s` without trailing whitespace.
pub open spec fn trim_end(s: Seq<char>) -> Seq<char>
    decreases s.len(),
{
    if s.len() > 0 && is_ws(s.last()) {
        trim_end(s.drop_last())
    } else {
        s
    }
}

/// The value of a decimal text: digits with an optional leading `+`,
/// within the machine word.
pub open spec fn parse_usize(t: Seq<char>) -> Option<nat> {
    let d = if t.len() > 0 && t[0] == '+' {
        t.drop_first()
    } else {
        t
    };
    if d.len() > 0 && all_digits(d) && digits_value(d) <= usize::MAX {
        Some(digits_value(d))
    } else {
        None
    }
}

/// What one header line says of the body length: `None` where it is not a
/// `Content-Length` header, else the length it declares, if it is a number.
pub open spec fn header_length(line: Seq<char>) -> Option<Option<nat>> {
    let l = trim_end(line);
    if l.len() >= 15 && l.take(15) == "Content-Length:"@ {
        Some(parse_usize(trim_start(trim_end(l.skip(15)))))
    } else {
        None
    }
}

/// The body length the header lines declare: the last `Content-Length`
/// header counts, and one that is not a number cancels the length.
pub open spec fn declared_length(lines: Seq<Seq<char>>) -> Option<nat>
    decreases lines.len(),
{
    if lines.len() == 0 {
        None
    } else {
        match header_length(lines.last()) {
            Some(v) => v,
            None => declared_length(lines.drop_last()),
        }
    }
}


fn is_ws_char(c: char) -> (r: bool)
    ensures
        r == is_ws(c),
{
    c == '\t' || c == '\n' || c == '\u{0B}' || c == '\u{0C}' || c == '\r' || c == ' ' || c
        == '\u{85}' || c == '\u{A0}' || c == '\u{1680}' || ('\u{2000}' <= c && c <= '\u{200A}')
        || c == '\u{2028}' || c == '\u{2029}' || c == '\u{202F}' || c == '\u{205F}' || c
        == '\u{3000}'
}

/// The bounds `[a, b)` of `t[from..to]` with whitespace trimmed at the end.
pub(crate) fn trim_end_at(t: &Vec<char>, from: usize, to: usize) -> (b: usize)
    requires
        from <= to <= t@.len(),
    ensures
        from <= b <= to,
        t@.subrange(from as int, b as int) == trim_end(t@.subrange(from as int, to as int)),
{
    let mut b = to;
    while b > from && is_ws_char(t[b - 1])
        invariant
            from <= b <= to <= t@.len(),
            trim_end(t@.subrange(from as int, b as int)) == trim_end(t@.subrange(from as int, to as int)),
        decreases b,
    {
        proof {
            let sub = t@.subrange(from as int, b as int);
            assert(sub.drop_last() =~= t@.subrange(from as int, b - 1));
            assert(sub.last() == t@[b - 1]);
        }
        b -= 1;
    }
    proof {
        let sub = t@.subrange(from as int, b as int);
        if sub.len() > 0 {
            assert(sub.last() == t@[b - 1]);
        }
    }
    b
}

pub(crate) fn trim_start_at(t: &Vec<char>, from: usize, to: usize) -> (a: usize)
    requires
        from <= to <= t@.len(),
    ensures
        from <= a <= to,
        t@.subrange(a as int, to as int) == trim_start(t@.subrange(from as int, to as int)),
{
    let mut a = from;
    while a < to && is_ws_char(t[a])
        invariant
            from <= a <= to <= t@.len(),
            trim_start(t@.subrange(a as int, to as int)) == trim_start(t@.subrange(from as int, to as int)),
        decreases to - a,
    {
        proof {
            let sub = t@.subrange(a as int, to as int);
            assert(sub.drop_first() =~= t@.subrange(a + 1, to as int));
            assert(sub[0] == t@[a as int]);
        }
        a += 1;
    }
    proof {
        let sub = t@.subrange(a as int, to as int);
        if sub.len() > 0 {
            assert(sub[0] == t@[a as int]);
        }
    }
    a
}

/// The value of `t[from..to]` as a machine word, per `parse_usize`.
pub(crate) fn parse_usize_at(t: &Vec<char>, from: usize, to: usize) -> (r: Option<usize>)
    requires
        from <= to <= t@.len(),
    ensures
        match r {
            Some(v) => parse_usize(t@.subrange(from as int, to as int)) == Some(v as nat),
            None => parse_usize(t@.subrange(from as int, to as int)) is None,
        },
{
    let ghost whole = t@.subrange(from as int, to as int);
    let start = if from < to && t[from] == '+' {
        from + 1
    } else {
        from
    };
    let ghost d = t@.subrange(start as int, to as int);
    proof {
        if from < to && t@[from as int] == '+' {
            assert(whole.drop_first() =~= d);
        } else {
            assert(whole =~= d);
        }
    }
    if start >= to {
        return None;
    }
    let mut acc: u64 = 0;
    let mut i = start;
    while i < to
        invariant
            start <= i <= to <= t@.len(),
            d == t@.subrange(start as int, to as int),
            whole == t@.subrange(from as int, to as int),
            d.len() > 0,
            parse_usize(whole) == (if d.len() > 0 && all_digits(d) && digits_value(d) <= usize::MAX {
                Some(digits_value(d))
            } else {
                None
            }),
            all_digits(t@.subrange(start as int, i as int)),
            acc == digits_value(t@.subrange(start as int, i as int)),
            acc <= usize::MAX,
        decreases to - i,
    {
        let c = t[i];
        if !('0' <= c && c <= '9') {
            proof {
                assert(d[i - start] == c);
                assert(!all_digits(d));
            }
            return None;
        }
        let dv = (c as u32 - '0' as u32) as u64;
        proof {
            let pre = t@.subrange(start as int, i as int);
            assert(t@.subrange(start as int, i + 1) =~= pre.push(c));
            assert(t@.subrange(start as int, i + 1).drop_last() =~= pre);
        }
        proof {
            assert(d.take(i - start + 1) =~= t@.subrange(start as int, i + 1));
            assert(digits_value(t@.subrange(start as int, i + 1)) == acc * 10 + dv);
        }
        if acc > (18446744073709551615u64 - dv) / 10 {
            proof {
                assert(acc * 10 + dv > 18446744073709551615) by (nonlinear_arith)
                    requires acc > (18446744073709551615u64 - dv) / 10, dv <= 9;
                if all_digits(d) {
                    lemma_digits_prefix_bound(d, i - start + 1);
                }
            }
            return None;
        }
        let next = acc * 10 + dv;
        if next > usize::MAX as u64 {
            proof {
                if all_digits(d) {
                    lemma_digits_prefix_bound(d, i - start + 1);
                }
            }
            return None;
        }
        proof {
            assert forall|j: int| 0 <= j < t@.subrange(start as int, i + 1).len() implies is_digit(
                #[trigger] t@.subrange(start as int, i + 1)[j],
            ) by {
                if j < i - start {
                    assert(t@.subrange(start as int, i + 1)[j] == t@.subrange(start as int, i as int)[j]);
                }
            }
        }
        acc = next;
        i += 1;
    }
    proof {
        assert(t@.subrange(start as int, to as int) =~= d);
    }
    Some(acc as usize)
}

/// The digits value of a prefix never exceeds that of the whole.
proof fn lemma_digits_prefix_bound(d: Seq<char>, k: int)
    requires
        0 <= k <= d.len(),
    ensures
        digits_value(d.take(k)) <= digits_value(d),
{
    crate::numeral::lemma_digits_value_prefix(d, k);
}

fn header_length_exec(line: &str) -> (r: Option<Option<usize>>)
    ensures
        match r {
            None => header_length(line@) is None,
            Some(None) => header_length(line@) == Some(None::<nat>),
            Some(Some(v)) => header_length(line@) == Some(Some(v as nat)),
        },
{
    let t = chars_of(line);
    let n = t.len();
    let b = trim_end_at(&t, 0, n);
    proof {
        assert(t@.subrange(0, n as int) =~= line@);
    }
    let key = chars_of("Content-Length:");
    let kl = key.len();
    proof {
        reveal_strlit("Content-Length:");
        assert(kl == 15);
    }
    let ghost l = t@.subrange(0, b as int);
    assert(l == trim_end(line@));
    if b < kl {
        return None;
    }
    let mut k: usize = 0;
    while k < kl
        invariant
            k <= kl,
            kl == 15,
            kl == key@.len(),
            key@ == "Content-Length:"@,
            kl <= b <= t@.len(),
            forall|j: int| 0 <= j < k ==> t@[j] == key@[j],
            l == t@.subrange(0, b as int),
            l == trim_end(line@),
        decreases kl - k,
    {
        if t[k] != key[k] {
            proof {
                assert(l.take(15)[k as int] == t@[k as int]);
                assert(l.take(15) != "Content-Length:"@);
            }
            return None;
        }
        k += 1;
    }
    proof {
        assert(t@.subrange(0, b as int).take(15) =~= "Content-Length:"@);
    }
    let e = trim_end_at(&t, kl, b);
    let a = trim_start_at(&t, kl, e);
    proof {
        assert(t@.subrange(0, b as int).skip(15) =~= t@.subrange(kl as int, b as int));
    }
    Some(parse_usize_at(&t, a, e))
}

/// The body length a message's header lines declare (the lines before the
/// blank one): the last `Content-Length` header counts; none, or one that
/// is not a number, leaves the message without a trusted length.
pub fn read_message(headers: &[String]) -> (r: Option<usize>)
    ensures
        match r {
            Some(v) => declared_length(crate::protocol::texts_of(headers@)) == Some(v as nat),
            None => declared_length(crate::protocol::texts_of(headers@)) is None,
        },
{
    let ghost ls = crate::protocol::texts_of(headers@);
    let mut length: Option<usize> = None;
    let mut i: usize = 0;
    proof {
        assert(ls.take(0) =~= Seq::<Seq<char>>::empty());
    }
    while i < headers.len()
        invariant
            i <= headers@.len(),
            ls == crate::protocol::texts_of(headers@),
            match length {
                Some(v) => declared_length(ls.take(i as int)) == Some(v as nat),
                None => declared_length(ls.take(i as int)) is None,
            },
        decreases headers.len() - i,
    {
        proof {
            let t = ls.take(i + 1);
            assert(t.drop_last() =~= ls.take(i as int));
            assert(t.last() == headers@[i as int]@);
        }
        match header_length_exec(headers[i].as_str()) {
            Some(v) => {
                length = v;
            },
            None => {},
        }
        i += 1;
    }
    proof {
        assert(ls.take(headers@.len() as int) =~= ls);
    }
    length
}

/// Whether a header line is the blank line that ends the headers: nothing
/// but whitespace.
pub fn is_blank_line(line: &str) -> (b: bool)
    ensures
        b == (trim_end(line@).len() == 0),
{
    let t = chars_of(line);
    let e = trim_end_at(&t, 0, t.len());
    proof {
        assert(t@.subrange(0, t@.len() as int) =~= t@);
    }
    e == 0
}

/// A framed message: the `Content-Length` header, a blank line, the body.
pub open spec fn frame_text(json: Seq<char>) -> Seq<char> {
    "Content-Length: "@ + decimal_digits(utf8_len(json)) + "\r\n\r\n"@ + json
}

/// Frames a JSON text for the wire.
pub fn write_message(json: &str) -> (r: String)
    ensures
        r@ == frame_text(json@),
{
    proof {
        lemma_utf8_len_matches_encoding(json@);
    }
    let n = json.as_bytes().len();
    let mut out = String::new();
    push_str(&mut out, "Content-Length: ");
    push_decimal(&mut out, n as u64);
    push_str(&mut out, "\r\n\r\n");
    push_str(&mut out, json);
    proof {
        assert(out@ =~= frame_text(json@));
    }
    out
}

} // verus!

verus! {

proof fn lemma_digit_char(d: nat)
    requires
        d < 10,
    ensures
        is_digit(crate::text::digit_char(d)),
        crate::numeral::digit_value(crate::text::digit_char(d)) == d,
{
}

/// The digits of a number read back as that number.
pub proof fn lemma_decimal_digits_value(n: nat)
    ensures
        all_digits(decimal_digits(n)),
        decimal_digits(n).len() > 0,
        digits_value(decimal_digits(n)) == n,
    decreases n,
{
    if n < 10 {
        lemma_digit_char(n);
        let d = decimal_digits(n);
        assert(d.drop_last() =~= Seq::<char>::empty());
        assert(digits_value(Seq::<char>::empty()) == 0);
        assert(d.last() == crate::text::digit_char(n));
        assert(digits_value(d) == digits_value(d.drop_last()) * 10 + crate::numeral::digit_value(d.last()));
    } else {
        lemma_digit_char(n % 10);
        lemma_decimal_digits_value(n / 10);
        crate::numeral::lemma_digits_value_push(decimal_digits(n / 10), crate::text::digit_char(n % 10));
        let d = decimal_digits(n);
        assert(d == decimal_digits(n / 10).push(crate::text::digit_char(n % 10)));
        assert(digits_value(d) == (n / 10) * 10 + n % 10);
        assert forall|i: int| 0 <= i < d.len() implies is_digit(#[trigger] d[i]) by {
            if i < d.len() - 1 {
                assert(d[i] == decimal_digits(n / 10)[i]);
            }
        }
    }
}

/// The header line that frames `json`.
pub open spec fn frame_header(json: Seq<char>) -> Seq<char> {
    "Content-Length: "@ + decimal_digits(utf8_len(json)) + "\r\n"@
}

/// A framed message is its header line, a blank line and the JSON text;
/// that header declares the JSON text's length in bytes, so reading that
/// many bytes after the blank line takes exactly the text's UTF-8 form,
/// which decodes back to the text.
pub proof fn law_frame_declares_body_length(json: Seq<char>)
    requires
        utf8_len(json) <= usize::MAX,
    ensures
        frame_text(json) == frame_header(json) + "\r\n"@ + json,
        declared_length(seq![frame_header(json)]) == Some(utf8_len(json)),
        trim_end(frame_header(json)).len() > 0,
        trim_end("\r\n"@).len() == 0,
        encode_utf8(json).len() == utf8_len(json),
        valid_utf8(encode_utf8(json)),
        decode_utf8(encode_utf8(json)) == json,
{
    lemma_utf8_len_matches_encoding(json);
    encode_utf8_valid_utf8(json);
    encode_utf8_decode_utf8(json);
    reveal_strlit("Content-Length: ");
    reveal_strlit("Content-Length:");
    reveal_strlit("\r\n");
    reveal_strlit("\r\n\r\n");
    let n = utf8_len(json);
    let ds = decimal_digits(n);
    lemma_decimal_digits_value(n);
    assert(frame_text(json) =~= frame_header(json) + "\r\n"@ + json);
    let line = frame_header(json);
    let body = "Content-Length: "@ + ds;
    assert(line =~= body.push('\r').push('\n'));
    assert(!is_ws(body.last())) by {
        assert(body.last() == ds.last());
        assert(is_digit(ds[ds.len() - 1]));
    }
    assert(trim_end(line) == body) by {
        assert(line.last() == '\n');
        assert(line.drop_last() =~= body.push('\r'));
        assert(body.push('\r').last() == '\r');
        assert(body.push('\r').drop_last() =~= body);
        assert(trim_end(body) == body);
        assert(trim_end(body.push('\r')) == trim_end(body));
        assert(trim_end(line) == trim_end(body.push('\r')));
    }
    assert(body.take(15) =~= "Content-Length:"@);
    let rest = body.skip(15);
    assert(rest =~= seq![' '] + ds);
    assert(trim_end(rest) == rest) by {
        assert(rest.last() == ds.last());
        assert(is_digit(ds[ds.len() - 1]));
    }
    assert(trim_start(rest) == ds) by {
        assert(rest[0] == ' ');
        assert(rest.drop_first() =~= ds);
        assert(!is_ws(ds[0])) by {
            assert(is_digit(ds[0]));
        }
        assert(trim_start(ds) == ds);
        assert(trim_start(rest) == trim_start(rest.drop_first()));
    }
    assert(ds[0] != '+') by {
        assert(is_digit(ds[0]));
    }
    assert(header_length(line) == Some(Some(n)));
    let hs = seq![line];
    assert(hs.last() == line);
    let crlf = "\r\n"@;
    assert(crlf.drop_last() =~= seq!['\r']);
    assert(seq!['\r'].drop_last() =~= Seq::<char>::empty());
    assert(is_ws('\n') && is_ws('\r'));
    assert(trim_end(seq!['\r']) == trim_end(Seq::<char>::empty()));
    assert(trim_end(crlf) == trim_end(seq!['\r']));
}

} // verus!
