//! JSON-RPC messages of the language server: reading decoded requests and
//! writing responses and notifications as JSON text.
use vstd::prelude::*;
use crate::analysis::{floor_index, offset_to_position, position_of};
use crate::json::{parse_json, spec_parse_json};
use crate::jsonout::{str_lit, str_lit_text};
use crate::text::{decimal_digits, push_char, push_decimal, push_signed, push_str, signed_digits, utf8_len};
use crate::value::{value_text, Data, Value};

verus! {

// ---------------------------------------------------------------------------
// Reading decoded messages
// ---------------------------------------------------------------------------

/// The value stored under `key` in an association list of `(key . value)`
/// pairs: the first entry whose key is the string `key`.
pub open spec fn get_spec(d: Data, key: Seq<char>) -> Option<Data>
    decreases d,
{
    match d {
        Data::Pair(entry, rest) => match *entry {
            Data::Pair(k, v) => if *k == Data::Str(key) {
                Some(*v)
            } else {
                get_spec(*rest, key)
            },
            _ => get_spec(*rest, key),
        },
        _ => None,
    }
}

/// The text of a string value.
pub open spec fn str_of(d: Option<Data>) -> Option<Seq<char>> {
    match d {
        Some(Data::Str(s)) => Some(s),
        _ => None,
    }
}

/// The value of an exact integer.
pub open spec fn i64_of(d: Option<Data>) -> Option<int> {
    match d {
        Some(Data::Number(n)) => Some(n),
        _ => None,
    }
}

/// The elements of a list, up to its first non-pair tail.
pub open spec fn items_of(d: Data) -> Seq<Data>
    decreases d,
{
    match d {
        Data::Pair(h, t) => seq![*h] + items_of(*t),
        _ => Seq::empty(),
    }
}

pub open spec fn opt_view(o: Option<Value>) -> Option<Data> {
    match o {
        Some(v) => Some(v@),
        None => None,
    }
}

pub open spec fn ref_view(o: Option<&Value>) -> Option<Data> {
    match o {
        Some(v) => Some(v@),
        None => None,
    }
}

/// Looks `key` up in an association list.
pub fn get<'a>(value: &'a Value, key: &str) -> (r: Option<&'a Value>)
    ensures
        match r {
            Some(v) => get_spec(value@, key@) == Some(v@),
            None => get_spec(value@, key@) is None,
        },
{
    let mut current = value;
    loop
        invariant
            get_spec(current@, key@) == get_spec(value@, key@),
        decreases current@,
    {
        match current {
            Value::Pair(entry, rest) => {
                proof {
                    assert(current@ == Data::Pair(Box::new(entry@), Box::new(rest@)));
                }
                if let Value::Pair(k, v) = &**entry {
                    proof {
                        assert(entry@ == Data::Pair(Box::new(k@), Box::new(v@)));
                    }
                    if let Value::String(name) = &**k {
                        if crate::text::string_eq(name, key) {
                            proof {
                                assert(k@ == Data::Str(key@));
                                assert(get_spec(current@, key@) == Some(v@));
                            }
                            return Some(&**v);
                        }
                        proof {
                            assert(k@ != Data::Str(key@));
                        }
                    }
                }
                current = &**rest;
            },
            _ => {
                return None;
            },
        }
    }
}

/// The text of a string value.
pub fn as_str<'a>(value: Option<&'a Value>) -> (r: Option<&'a str>)
    ensures
        match r {
            Some(t) => str_of(ref_view(value)) == Some(t@),
            None => str_of(ref_view(value)) is None,
        },
{
    match value {
        Some(Value::String(s)) => Some(s.as_str()),
        _ => None,
    }
}

/// The value of an exact integer.
pub fn as_i64(value: Option<&Value>) -> (r: Option<i64>)
    ensures
        match r {
            Some(n) => i64_of(ref_view(value)) == Some(n as int),
            None => i64_of(ref_view(value)) is None,
        },
{
    match value {
        Some(Value::Number(n)) => Some(*n),
        _ => None,
    }
}

/// The elements of a list value; nothing for an absent value.
pub fn as_array<'a>(value: Option<&'a Value>) -> (r: Vec<&'a Value>)
    ensures
        r@.len() == (match value {
            Some(v) => items_of(v@).len(),
            None => 0,
        }),
        forall|i: int|
            0 <= i < r@.len() ==> (value matches Some(v) && (#[trigger] r@[i])@ == items_of(
                v@,
            )[i]),
{
    let mut items: Vec<&'a Value> = Vec::new();
    match value {
        None => items,
        Some(start) => {
            let mut current = start;
            loop
                invariant
                    value == Some(start),
                    items_of(start@) =~= Seq::new(items@.len(), |i: int| items@[i]@) + items_of(
                        current@,
                    ),
                decreases current@,
            {
                match current {
                    Value::Pair(head, tail) => {
                        let ghost before = Seq::new(items@.len(), |i: int| items@[i]@);
                        items.push(&**head);
                        proof {
                            assert(Seq::new(items@.len(), |i: int| items@[i]@) =~= before.push(
                                head@,
                            ));
                            assert(items_of(current@) == seq![head@] + items_of(tail@));
                        }
                        current = &**tail;
                    },
                    _ => {
                        proof {
                            assert(items_of(current@) =~= Seq::<Data>::empty());
                            let vs = Seq::new(items@.len(), |i: int| items@[i]@);
                            assert(vs + Seq::<Data>::empty() =~= vs);
                            assert(items_of(start@) == vs);
                            assert(items_of(start@).len() == items@.len());
                            assert forall|i: int| 0 <= i < items@.len() implies (#[trigger] items@[i])@
                                == items_of(start@)[i] by {
                                assert(vs[i] == items@[i]@);
                            }
                        }
                        return items;
                    },
                }
            }
        },
    }
}

/// The parts of one incoming message.
#[derive(Debug)]
pub struct Incoming {
    pub id: Option<Value>,
    pub method: Option<String>,
    pub params: Option<Value>,
}

fn duplicate_opt(v: Option<&Value>) -> (r: Option<Value>)
    ensures
        opt_view(r) == ref_view(v),
{
    match v {
        Some(x) => Some(x.duplicate()),
        None => None,
    }
}

/// Decodes a raw JSON-RPC text into its id, method and parameters.
pub fn decode(text: &str) -> (r: Result<Incoming, String>)
    ensures
        match r {
            Ok(m) => spec_parse_json(text@) matches Ok(d) && opt_view(m.id) == get_spec(d, "id"@)
                && opt_view(m.params) == get_spec(d, "params"@) && match m.method {
                Some(s) => str_of(get_spec(d, "method"@)) == Some(s@),
                None => str_of(get_spec(d, "method"@)) is None,
            },
            Err(e) => spec_parse_json(text@) == Err::<Data, Seq<char>>(e@),
        },
{
    let value = match parse_json(text) {
        Ok(v) => v,
        Err(e) => {
            return Err(e);
        },
    };
    let id = duplicate_opt(get(&value, "id"));
    let method = match as_str(get(&value, "method")) {
        Some(m) => Some(crate::text::owned(m)),
        None => None,
    };
    let params = duplicate_opt(get(&value, "params"));
    Ok(Incoming { id, method, params })
}

// ---------------------------------------------------------------------------
// Writing messages
// ---------------------------------------------------------------------------

/// (line, UTF-16 column) of byte `offset`, as `offset_to_position` gives it.
pub open spec fn position_at(s: Seq<char>, offset: int) -> (nat, nat) {
    position_of(s.take(floor_index(s, offset, 0)))
}

/// A JSON position object.
pub open spec fn position_text(p: (nat, nat)) -> Seq<char> {
    "{\"line\":"@ + decimal_digits(p.0) + ",\"character\":"@ + decimal_digits(p.1) + "}"@
}

/// The JSON range object of bytes `start..end` of `s`.
pub open spec fn range_text(s: Seq<char>, start: int, end: int) -> Seq<char> {
    "{\"start\":"@ + position_text(position_at(s, start)) + ",\"end\":"@ + position_text(
        position_at(s, end),
    ) + "}"@
}

fn push_position(out: &mut String, p: (u32, u32))
    ensures
        final(out)@ == old(out)@ + position_text((p.0 as nat, p.1 as nat)),
{
    push_str(out, "{\"line\":");
    push_decimal(out, p.0 as u64);
    push_str(out, ",\"character\":");
    push_decimal(out, p.1 as u64);
    push_str(out, "}");
    proof {
        assert(final(out)@ =~= old(out)@ + position_text((p.0 as nat, p.1 as nat)));
    }
}

/// The JSON range of bytes `start..end` of `source`.
pub fn span_to_range(source: &str, start: usize, end: usize) -> (r: String)
    requires
        utf8_len(source@) <= u32::MAX,
    ensures
        r@ == range_text(source@, start as int, end as int),
{
    let a = offset_to_position(source, start);
    let b = offset_to_position(source, end);
    let mut out = String::new();
    push_str(&mut out, "{\"start\":");
    push_position(&mut out, a);
    push_str(&mut out, ",\"end\":");
    push_position(&mut out, b);
    push_str(&mut out, "}");
    proof {
        assert(out@ =~= range_text(source@, start as int, end as int));
    }
    out
}

/// How a request id is echoed: strings as string literals, integers as
/// integers, other numbers as spelled, absent or null as `null`, anything
/// else as the string literal of its printed form.
pub open spec fn id_text(id: Option<Data>) -> Seq<char> {
    match id {
        Some(Data::Str(s)) => str_lit_text(s),
        Some(Data::Number(n)) => signed_digits(n),
        Some(Data::Decimal(t)) => t,
        Some(Data::Nil) => "null"@,
        None => "null"@,
        Some(other) => str_lit_text(value_text(other)),
    }
}

fn id_string(id: &Option<Value>) -> (r: String)
    ensures
        r@ == id_text(opt_view(*id)),
{
    match id {
        Some(Value::String(s)) => str_lit(s.as_str()),
        Some(Value::Number(n)) => {
            let mut out = String::new();
            push_signed(&mut out, *n);
            proof {
                assert(out@ =~= signed_digits(*n as int));
            }
            out
        },
        Some(Value::Decimal(t)) => crate::text::copy_string(t),
        Some(Value::Nil) | None => crate::text::owned("null"),
        Some(other) => {
            let printed = other.to_text();
            str_lit(printed.as_str())
        },
    }
}

/// The body of a response: its result, or its error object.
pub open spec fn response_body(result: Option<Seq<char>>, error: Option<(int, Seq<char>)>) -> Seq<
    char,
> {
    match error {
        Some((code, message)) => "\"error\":{\"code\":"@ + signed_digits(code) + ",\"message\":"@
            + str_lit_text(message) + "}"@,
        None => "\"result\":"@ + match result {
            Some(t) => t,
            None => "null"@,
        },
    }
}

/// A JSON-RPC response.
pub open spec fn response_text(
    id: Option<Data>,
    result: Option<Seq<char>>,
    error: Option<(int, Seq<char>)>,
) -> Seq<char> {
    "{\"jsonrpc\":\"2.0\",\"id\":"@ + id_text(id) + ","@ + response_body(result, error) + "}"@
}

pub open spec fn opt_text(o: Option<String>) -> Option<Seq<char>> {
    match o {
        Some(s) => Some(s@),
        None => None,
    }
}

pub open spec fn error_view(o: Option<(i64, String)>) -> Option<(int, Seq<char>)> {
    match o {
        Some((c, m)) => Some((c as int, m@)),
        None => None,
    }
}

/// A JSON-RPC response to `id` with `result` or, where given, `error`.
pub fn response(id: &Option<Value>, result: Option<String>, error: Option<(i64, String)>) -> (r:
    String)
    ensures
        r@ == response_text(opt_view(*id), opt_text(result), error_view(error)),
{
    let mut out = String::new();
    push_str(&mut out, "{\"jsonrpc\":\"2.0\",\"id\":");
    let idt = id_string(id);
    push_str(&mut out, idt.as_str());
    push_str(&mut out, ",");
    let ghost mid = out@;
    match error {
        Some((code, message)) => {
            push_str(&mut out, "\"error\":{\"code\":");
            push_signed(&mut out, code);
            push_str(&mut out, ",\"message\":");
            let m = str_lit(message.as_str());
            push_str(&mut out, m.as_str());
            push_str(&mut out, "}");
        },
        None => {
            push_str(&mut out, "\"result\":");
            match result {
                Some(t) => push_str(&mut out, t.as_str()),
                None => push_str(&mut out, "null"),
            }
        },
    }
    push_str(&mut out, "}");
    proof {
        assert(out@ =~= response_text(opt_view(*id), opt_text(result), error_view(error)));
    }
    out
}

/// A JSON-RPC notification.
pub open spec fn notification_text(method: Seq<char>, params: Seq<char>) -> Seq<char> {
    "{\"jsonrpc\":\"2.0\",\"method\":"@ + str_lit_text(method) + ",\"params\":"@ + params + "}"@
}

/// A JSON-RPC notification of `method` with `params` (JSON text).
pub fn notification(method: &str, params: String) -> (r: String)
    ensures
        r@ == notification_text(method@, params@),
{
    let mut out = String::new();
    push_str(&mut out, "{\"jsonrpc\":\"2.0\",\"method\":");
    let m = str_lit(method);
    push_str(&mut out, m.as_str());
    push_str(&mut out, ",\"params\":");
    push_str(&mut out, params.as_str());
    push_str(&mut out, "}");
    proof {
        assert(out@ =~= notification_text(method@, params@));
    }
    out
}

/// `items` joined with commas.
pub open spec fn join_commas(items: Seq<Seq<char>>) -> Seq<char>
    decreases items.len(),
{
    if items.len() == 0 {
        Seq::empty()
    } else if items.len() == 1 {
        items[0]
    } else {
        join_commas(items.drop_last()) + ","@ + items.last()
    }
}

pub open spec fn texts_of(v: Seq<String>) -> Seq<Seq<char>> {
    Seq::new(v.len(), |i: int| v[i]@)
}

/// Joins strings with commas.
pub fn join(items: &[String]) -> (r: String)
    ensures
        r@ == join_commas(texts_of(items@)),
{
    let mut out = String::new();
    let mut i: usize = 0;
    proof {
        assert(texts_of(items@.take(0)) =~= Seq::<Seq<char>>::empty());
    }
    while i < items.len()
        invariant
            i <= items@.len(),
            out@ == join_commas(texts_of(items@.take(i as int))),
        decreases items.len() - i,
    {
        if i > 0 {
            push_str(&mut out, ",");
        }
        push_str(&mut out, items[i].as_str());
        proof {
            let t = texts_of(items@.take(i + 1));
            assert(t.drop_last() =~= texts_of(items@.take(i as int)));
            assert(t.last() == items@[i as int]@);
            if i == 0 {
                assert(out@ =~= t[0]);
            } else {
                assert(out@ =~= join_commas(t.drop_last()) + ","@ + t.last());
            }
        }
        i += 1;
    }
    proof {
        assert(items@.take(items@.len() as int) =~= items@);
    }
    out
}

/// The `textDocument/publishDiagnostics` notification for `uri`.
pub open spec fn publish_text(uri: Seq<char>, diagnostics: Seq<Seq<char>>) -> Seq<char> {
    notification_text(
        "textDocument/publishDiagnostics"@,
        "{\"uri\":"@ + str_lit_text(uri) + ",\"diagnostics\":["@ + join_commas(diagnostics)
            + "]}"@,
    )
}

/// Publishes `diagnostics` (JSON objects) for `uri`.
pub fn publish_diagnostics(uri: &str, diagnostics: &[String]) -> (r: String)
    ensures
        r@ == publish_text(uri@, texts_of(diagnostics@)),
{
    let mut params = String::new();
    push_str(&mut params, "{\"uri\":");
    let u = str_lit(uri);
    push_str(&mut params, u.as_str());
    push_str(&mut params, ",\"diagnostics\":[");
    let j = join(diagnostics);
    push_str(&mut params, j.as_str());
    push_str(&mut params, "]}");
    proof {
        assert(params@ =~= "{\"uri\":"@ + str_lit_text(uri@) + ",\"diagnostics\":["@
            + join_commas(texts_of(diagnostics@)) + "]}"@);
    }
    notification("textDocument/publishDiagnostics", params)
}

/// An error diagnostic over bytes `start..end` of `source`.
pub open spec fn diagnostic_text(s: Seq<char>, message: Seq<char>, start: int, end: int) -> Seq<
    char,
> {
    "{\"range\":"@ + range_text(s, start, end) + ",\"severity\":1,\"source\":\"my-lisp\",\"message\":"@
        + str_lit_text(message) + "}"@
}

/// An error diagnostic with `message` over bytes `start..end` of `source_text`.
pub fn diagnostic(source_text: &str, message: &str, start: usize, end: usize) -> (r: String)
    requires
        utf8_len(source_text@) <= u32::MAX,
    ensures
        r@ == diagnostic_text(source_text@, message@, start as int, end as int),
{
    let mut out = String::new();
    push_str(&mut out, "{\"range\":");
    let range = span_to_range(source_text, start, end);
    push_str(&mut out, range.as_str());
    push_str(&mut out, ",\"severity\":1,\"source\":\"my-lisp\",\"message\":");
    let m = str_lit(message);
    push_str(&mut out, m.as_str());
    push_str(&mut out, "}");
    proof {
        assert(out@ =~= diagnostic_text(source_text@, message@, start as int, end as int));
    }
    out
}

} // verus!
