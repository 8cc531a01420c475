//! Plain data values: the shape JSON documents are decoded into, and the
//! canonical printed form of such values.
use vstd::prelude::*;
use crate::text::{copy_string, push_char, push_chars, push_signed, push_str, signed_digits};

verus! {

/// A data value: the empty list, booleans, exact integers, other JSON
/// numbers (kept as their source spelling), strings, symbols and pairs.
#[derive(Debug)]
pub enum Value {
    Nil,
    Bool(bool),
    Number(i64),
    /// A number that is not an exact 64-bit integer, as it was spelled.
    Decimal(String),
    String(String),
    Symbol(String),
    Pair(Box<Value>, Box<Value>),
}

/// A data value as a mathematical object.
pub enum Data {
    Nil,
    Bool(bool),
    Number(int),
    Decimal(Seq<char>),
    Str(Seq<char>),
    Sym(Seq<char>),
    Pair(Box<Data>, Box<Data>),
}

impl Value {
    pub open spec fn view(&self) -> Data
        decreases self,
    {
        match self {
            Value::Nil => Data::Nil,
            Value::Bool(b) => Data::Bool(*b),
            Value::Number(n) => Data::Number(*n as int),
            Value::Decimal(t) => Data::Decimal(t@),
            Value::String(s) => Data::Str(s@),
            Value::Symbol(s) => Data::Sym(s@),
            Value::Pair(h, t) => Data::Pair(Box::new(h.view()), Box::new(t.view())),
        }
    }

    /// A deep copy.
    pub fn duplicate(&self) -> (r: Value)
        ensures
            r@ == self@,
        decreases self,
    {
        match self {
            Value::Nil => Value::Nil,
            Value::Bool(b) => Value::Bool(*b),
            Value::Number(n) => Value::Number(*n),
            Value::Decimal(t) => Value::Decimal(copy_string(t)),
            Value::String(s) => Value::String(copy_string(s)),
            Value::Symbol(s) => Value::Symbol(copy_string(s)),
            Value::Pair(h, t) => Value::Pair(Box::new(h.duplicate()), Box::new(t.duplicate())),
        }
    }

    /// Whether the value is not a pair.
    pub fn is_atom(&self) -> (b: bool)
        ensures
            b == !(self@ is Pair),
    {
        match self {
            Value::Pair(_, _) => false,
            _ => true,
        }
    }

    /// Whether the value counts as true: anything but `()` and false.
    pub fn is_truthy(&self) -> (b: bool)
        ensures
            b == !(self@ is Nil || self@ == Data::Bool(false)),
    {
        match self {
            Value::Nil => false,
            Value::Bool(false) => false,
            _ => true,
        }
    }

    /// The canonical printed form.
    pub fn to_text(&self) -> (r: String)
        ensures
            r@ == value_text(self@),
    {
        let mut out = String::new();
        write_value(&mut out, self);
        proof {
            assert(Seq::<char>::empty() + value_text(self@) =~= value_text(self@));
        }
        out
    }
}

/// The proper list of `items`.
pub open spec fn list_of(items: Seq<Data>) -> Data
    decreases items.len(),
{
    if items.len() == 0 {
        Data::Nil
    } else {
        Data::Pair(Box::new(items[0]), Box::new(list_of(items.drop_first())))
    }
}

/// Builds the proper list of `items`.
pub fn list(items: Vec<Value>) -> (r: Value)
    ensures
        r@ == list_of(Seq::new(items@.len(), |i: int| items@[i]@)),
{
    let ghost orig = Seq::new(items@.len(), |i: int| items@[i]@);
    let ghost n = items@.len();
    let mut items = items;
    let mut acc = Value::Nil;
    proof {
        assert(orig.subrange(n as int, n as int) =~= Seq::<Data>::empty());
    }
    while items.len() > 0
        invariant
            items@.len() <= n,
            orig.len() == n,
            forall|i: int| 0 <= i < items@.len() ==> items@[i]@ == orig[i],
            acc@ == list_of(orig.subrange(items@.len() as int, n as int)),
        decreases items.len(),
    {
        let ghost k = items@.len();
        let ghost old_items = items@;
        let x = items.pop().unwrap();
        proof {
            assert(old_items[k - 1] == x);
            assert(orig.subrange(k - 1, n as int).drop_first() =~= orig.subrange(k as int, n as int));
        }
        acc = Value::Pair(Box::new(x), Box::new(acc));
    }
    proof {
        assert(orig.subrange(0, n as int) =~= orig);
    }
    acc
}

/// The canonical printed form of a value.
pub open spec fn value_text(v: Data) -> Seq<char>
    decreases v, 1int,
{
    match v {
        Data::Nil => "()"@,
        Data::Bool(b) => if b {
            "t"@
        } else {
            "()"@
        },
        Data::Number(n) => signed_digits(n),
        Data::Decimal(t) => t,
        Data::Str(s) => seq!['"'] + s + seq!['"'],
        Data::Sym(s) => s,
        Data::Pair(h, t) => seq!['('] + value_text(*h) + tail_text(*t),
    }
}

/// The rest of a list's printed form after its first element.
pub open spec fn tail_text(v: Data) -> Seq<char>
    decreases v, 2int,
{
    match v {
        Data::Pair(h, t) => seq![' '] + value_text(*h) + tail_text(*t),
        Data::Nil => seq![')'],
        _ => " . "@ + value_text(v) + seq![')'],
    }
}

fn write_value(out: &mut String, v: &Value)
    ensures
        final(out)@ == old(out)@ + value_text(v@),
    decreases v, 1int,
{
    match v {
        Value::Nil => {
            push_str(out, "()");
        },
        Value::Bool(b) => {
            if *b {
                push_str(out, "t");
            } else {
                push_str(out, "()");
            }
        },
        Value::Number(n) => {
            push_signed(out, *n);
        },
        Value::Decimal(t) => {
            push_str(out, t.as_str());
        },
        Value::String(s) => {
            push_char(out, '"');
            push_str(out, s.as_str());
            push_char(out, '"');
            proof {
                assert(old(out)@.push('"') + s@ + seq!['"'] =~= old(out)@.push('"') + s@ + seq!['"']);
                assert((old(out)@.push('"') + s@).push('"') =~= old(out)@ + (seq!['"'] + s@ + seq!['"']));
            }
        },
        Value::Symbol(s) => {
            push_str(out, s.as_str());
        },
        Value::Pair(h, t) => {
            push_char(out, '(');
            write_value(out, h);
            write_tail(out, t);
            proof {
                assert(old(out)@.push('(') + value_text(h@) + tail_text(t@) =~= old(out)@ + (seq!['(']
                    + value_text(h@) + tail_text(t@)));
            }
        },
    }
}

fn write_tail(out: &mut String, v: &Value)
    ensures
        final(out)@ == old(out)@ + tail_text(v@),
    decreases v, 2int,
{
    match v {
        Value::Pair(h, t) => {
            push_char(out, ' ');
            write_value(out, h);
            write_tail(out, t);
            proof {
                assert(old(out)@.push(' ') + value_text(h@) + tail_text(t@) =~= old(out)@ + (seq![' ']
                    + value_text(h@) + tail_text(t@)));
            }
        },
        Value::Nil => {
            push_char(out, ')');
            proof {
                assert(old(out)@.push(')') =~= old(out)@ + seq![')']);
            }
        },
        _ => {
            push_str(out, " . ");
            write_value(out, v);
            push_char(out, ')');
            proof {
                assert((old(out)@ + " . "@ + value_text(v@)).push(')') =~= old(out)@ + (" . "@
                    + value_text(v@) + seq![')']));
            }
        },
    }
}

} // verus!
