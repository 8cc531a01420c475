//! Canon 0 and the seven McCarthy primitives: the fixed evaluator meanings
//! keyed by numeric semantic identity. Canon 0, the empty list, has no
//! identity: it is the ground value itself.
use vstd::prelude::*;
use crate::error::{ErrorKind, LanguageError};
use crate::syntax::Span;
use crate::text::{owned, push_decimal, push_str, str_eq};
use crate::value::Value;

verus! {

#[derive(Clone, Copy, Debug, PartialEq, Eq, Structural)]
pub enum CanonicalIdentity {
    EmptyList,
    Quote,
    Atom,
    Eq,
    Cons,
    Car,
    Cdr,
    Cond,
}

#[derive(Clone, Copy, Debug, PartialEq, Eq, Structural)]
pub enum CanonicalKind {
    GroundValue,
    ValuePrimitive,
    SpecialForm,
}

#[derive(Clone, Copy, Debug)]
pub struct CanonEntry {
    pub identity: CanonicalIdentity,
    pub kind: CanonicalKind,
    pub semantic_id: Option<&'static str>,
}

pub struct CanonSpec {
    pub identity: CanonicalIdentity,
    pub kind: CanonicalKind,
    pub semantic_id: Option<Seq<char>>,
}

impl CanonEntry {
    pub open spec fn view(&self) -> CanonSpec {
        CanonSpec {
            identity: self.identity,
            kind: self.kind,
            semantic_id: match self.semantic_id {
                Some(s) => Some(s@),
                None => None,
            },
        }
    }
}

pub const QUOTE_SEMANTIC_ID: &'static str = "0001";
pub const ATOM_SEMANTIC_ID: &'static str = "0002";
pub const EQ_SEMANTIC_ID: &'static str = "0003";
pub const CONS_SEMANTIC_ID: &'static str = "0004";
pub const CAR_SEMANTIC_ID: &'static str = "0005";
pub const CDR_SEMANTIC_ID: &'static str = "0006";
pub const COND_SEMANTIC_ID: &'static str = "0007";

/// Canon 0 followed by the seven primitives, in order.
pub open spec fn canon_spec() -> Seq<CanonSpec> {
    seq![
        CanonSpec { identity: CanonicalIdentity::EmptyList, kind: CanonicalKind::GroundValue, semantic_id: None },
        CanonSpec { identity: CanonicalIdentity::Quote, kind: CanonicalKind::SpecialForm, semantic_id: Some("0001"@) },
        CanonSpec { identity: CanonicalIdentity::Atom, kind: CanonicalKind::ValuePrimitive, semantic_id: Some("0002"@) },
        CanonSpec { identity: CanonicalIdentity::Eq, kind: CanonicalKind::ValuePrimitive, semantic_id: Some("0003"@) },
        CanonSpec { identity: CanonicalIdentity::Cons, kind: CanonicalKind::ValuePrimitive, semantic_id: Some("0004"@) },
        CanonSpec { identity: CanonicalIdentity::Car, kind: CanonicalKind::ValuePrimitive, semantic_id: Some("0005"@) },
        CanonSpec { identity: CanonicalIdentity::Cdr, kind: CanonicalKind::ValuePrimitive, semantic_id: Some("0006"@) },
        CanonSpec { identity: CanonicalIdentity::Cond, kind: CanonicalKind::SpecialForm, semantic_id: Some("0007"@) },
    ]
}

/// The Canon table.
pub fn canon() -> (r: Vec<CanonEntry>)
    ensures
        Seq::new(r@.len(), |i: int| r@[i]@) == canon_spec(),
{
    let r = vec![
        CanonEntry { identity: CanonicalIdentity::EmptyList, kind: CanonicalKind::GroundValue, semantic_id: None },
        CanonEntry { identity: CanonicalIdentity::Quote, kind: CanonicalKind::SpecialForm, semantic_id: Some(QUOTE_SEMANTIC_ID) },
        CanonEntry { identity: CanonicalIdentity::Atom, kind: CanonicalKind::ValuePrimitive, semantic_id: Some(ATOM_SEMANTIC_ID) },
        CanonEntry { identity: CanonicalIdentity::Eq, kind: CanonicalKind::ValuePrimitive, semantic_id: Some(EQ_SEMANTIC_ID) },
        CanonEntry { identity: CanonicalIdentity::Cons, kind: CanonicalKind::ValuePrimitive, semantic_id: Some(CONS_SEMANTIC_ID) },
        CanonEntry { identity: CanonicalIdentity::Car, kind: CanonicalKind::ValuePrimitive, semantic_id: Some(CAR_SEMANTIC_ID) },
        CanonEntry { identity: CanonicalIdentity::Cdr, kind: CanonicalKind::ValuePrimitive, semantic_id: Some(CDR_SEMANTIC_ID) },
        CanonEntry { identity: CanonicalIdentity::Cond, kind: CanonicalKind::SpecialForm, semantic_id: Some(COND_SEMANTIC_ID) },
    ];
    proof {
        assert(Seq::new(r@.len(), |i: int| r@[i]@) =~= canon_spec());
    }
    r
}

/// The identity of the first Canon entry keyed by `semantic_id`.
pub open spec fn identity_for_semantic_id_spec(entries: Seq<CanonSpec>, semantic_id: Seq<char>) -> Option<
    CanonicalIdentity,
>
    decreases entries.len(),
{
    if entries.len() == 0 {
        None
    } else if entries[0].semantic_id == Some(semantic_id) {
        Some(entries[0].identity)
    } else {
        identity_for_semantic_id_spec(entries.drop_first(), semantic_id)
    }
}

/// The semantic identity of the first Canon entry with `identity`.
pub open spec fn semantic_id_for_identity_spec(entries: Seq<CanonSpec>, identity: CanonicalIdentity) -> Option<
    Seq<char>,
>
    decreases entries.len(),
{
    if entries.len() == 0 {
        None
    } else if entries[0].identity == identity {
        entries[0].semantic_id
    } else {
        semantic_id_for_identity_spec(entries.drop_first(), identity)
    }
}

/// The Canon meaning selected by a numeric semantic identity.
pub fn identity_for_semantic_id(semantic_id: &str) -> (r: Option<CanonicalIdentity>)
    ensures
        r == identity_for_semantic_id_spec(canon_spec(), semantic_id@),
{
    let entries = canon();
    let ghost cs = canon_spec();
    let mut i: usize = 0;
    proof {
        assert(cs.skip(0) =~= cs);
    }
    while i < entries.len()
        invariant
            i <= entries@.len(),
            cs == canon_spec(),
            Seq::new(entries@.len(), |j: int| entries@[j]@) == cs,
            identity_for_semantic_id_spec(cs.skip(i as int), semantic_id@)
                == identity_for_semantic_id_spec(cs, semantic_id@),
        decreases entries.len() - i,
    {
        let e = entries[i];
        proof {
            assert(cs.skip(i as int)[0] == e@);
            assert(cs.skip(i as int).drop_first() =~= cs.skip(i + 1));
        }
        match e.semantic_id {
            Some(s) => {
                if str_eq(s, semantic_id) {
                    return Some(e.identity);
                }
            },
            None => {},
        }
        i += 1;
    }
    None
}

/// The numeric semantic identity of a Canon meaning; none for Canon 0.
pub fn semantic_id_for_identity(identity: CanonicalIdentity) -> (r: Option<&'static str>)
    ensures
        match r {
            Some(s) => semantic_id_for_identity_spec(canon_spec(), identity) == Some(s@),
            None => semantic_id_for_identity_spec(canon_spec(), identity) is None,
        },
{
    let entries = canon();
    let ghost cs = canon_spec();
    let mut i: usize = 0;
    proof {
        assert(cs.skip(0) =~= cs);
    }
    while i < entries.len()
        invariant
            i <= entries@.len(),
            cs == canon_spec(),
            Seq::new(entries@.len(), |j: int| entries@[j]@) == cs,
            semantic_id_for_identity_spec(cs.skip(i as int), identity)
                == semantic_id_for_identity_spec(cs, identity),
        decreases entries.len() - i,
    {
        let e = entries[i];
        proof {
            assert(cs.skip(i as int)[0] == e@);
            assert(cs.skip(i as int).drop_first() =~= cs.skip(i + 1));
        }
        if e.identity == identity {
            return e.semantic_id;
        }
        i += 1;
    }
    None
}

/// The value of a Canon meaning that is a ground value: only the empty list.
pub fn ground_value(identity: CanonicalIdentity) -> (r: Option<Value>)
    ensures
        match r {
            Some(v) => identity == CanonicalIdentity::EmptyList && v@ == crate::value::Data::Nil,
            None => identity != CanonicalIdentity::EmptyList,
        },
{
    match identity {
        CanonicalIdentity::EmptyList => Some(Value::Nil),
        _ => None,
    }
}

/// The arity error of a Canon primitive that received `received` arguments
/// where it takes `expected`.
pub open spec fn arity_message(primitive: Seq<char>, expected: nat, received: nat) -> Seq<char> {
    primitive + ": expected / ochikuvalosia / erwartet "@ + crate::text::decimal_digits(expected)
        + "; received / otrymano / erhalten "@ + crate::text::decimal_digits(received)
}

/// Checks that a Canon primitive received exactly `expected` arguments.
pub fn exact_args(primitive: &str, received: usize, expected: usize, span: Span) -> (r: Result<(), LanguageError>)
    ensures
        match r {
            Ok(()) => received == expected,
            Err(e) => received != expected && e@.kind == ErrorKind::Arity && e@.span == span
                && e@.message == arity_message(primitive@, expected as nat, received as nat),
        },
{
    if received == expected {
        return Ok(());
    }
    let mut message = String::new();
    push_str(&mut message, primitive);
    push_str(&mut message, ": expected / ochikuvalosia / erwartet ");
    push_decimal(&mut message, expected as u64);
    push_str(&mut message, "; received / otrymano / erhalten ");
    push_decimal(&mut message, received as u64);
    proof {
        assert(message@ =~= arity_message(primitive@, expected as nat, received as nat));
    }
    Err(LanguageError::new(ErrorKind::Arity, message, span))
}

} // verus!

verus! {

/// The Canon identity a surface names through the status registry `rows`.
pub open spec fn identity_for_surface_spec(rows: Seq<crate::status_registry::StatusRowSpec>, name: Seq<char>) -> Option<CanonicalIdentity> {
    match crate::status_registry::semantic_id_for_surface_spec(rows, name) {
        Some(sid) => identity_for_semantic_id_spec(canon_spec(), sid),
        None => None,
    }
}

/// The Canon identity `name` names, through the status registry `rows`.
pub fn identity_for_surface(rows: &Vec<crate::status_registry::StatusRow>, name: &str) -> (r: Option<CanonicalIdentity>)
    ensures
        r == identity_for_surface_spec(Seq::new(rows@.len(), |i: int| rows@[i]@), name@),
{
    match crate::status_registry::semantic_id_for_surface(rows, name) {
        Some(sid) => identity_for_semantic_id(sid.as_str()),
        None => None,
    }
}

/// Whether `name` is a stable spelling, in the status registry `rows`, of
/// one of the Canon identities: the finite reserved set a binder may not
/// redefine.
pub fn is_canonical_surface_name(rows: &Vec<crate::status_registry::StatusRow>, name: &str) -> (r: bool)
    ensures
        r == identity_for_surface_spec(Seq::new(rows@.len(), |i: int| rows@[i]@), name@) is Some,
{
    identity_for_surface(rows, name).is_some()
}

/// The name of a Canon identity as its debug spelling writes it.
pub open spec fn identity_name(id: CanonicalIdentity) -> Seq<char> {
    match id {
        CanonicalIdentity::EmptyList => "EmptyList"@,
        CanonicalIdentity::Quote => "Quote"@,
        CanonicalIdentity::Atom => "Atom"@,
        CanonicalIdentity::Eq => "Eq"@,
        CanonicalIdentity::Cons => "Cons"@,
        CanonicalIdentity::Car => "Car"@,
        CanonicalIdentity::Cdr => "Cdr"@,
        CanonicalIdentity::Cond => "Cond"@,
    }
}

pub fn identity_name_exec(id: CanonicalIdentity) -> (r: &'static str)
    ensures
        r@ == identity_name(id),
{
    match id {
        CanonicalIdentity::EmptyList => "EmptyList",
        CanonicalIdentity::Quote => "Quote",
        CanonicalIdentity::Atom => "Atom",
        CanonicalIdentity::Eq => "Eq",
        CanonicalIdentity::Cons => "Cons",
        CanonicalIdentity::Car => "Car",
        CanonicalIdentity::Cdr => "Cdr",
        CanonicalIdentity::Cond => "Cond",
    }
}

/// The error a binder meets when it tries to define a Canon spelling.
pub open spec fn immutable_name_message(name: Seq<char>, id: CanonicalIdentity) -> Seq<char> {
    "canonical name is immutable · канонічне ім'я незмінне · kanonischer Name ist unveränderlich: "@ + name
        + " -> "@ + identity_name(id)
}

/// Whether `name` may be bound: a spelling of a Canon identity, through
/// the status registry `rows`, may not.
pub fn ensure_bindable(rows: &Vec<crate::status_registry::StatusRow>, name: &str, span: Span) -> (r: Result<(), LanguageError>)
    ensures
        match identity_for_surface_spec(Seq::new(rows@.len(), |i: int| rows@[i]@), name@) {
            None => r is Ok,
            Some(id) => r matches Err(e) && e@.kind == ErrorKind::InvalidForm && e@.span == span
                && e@.message == immutable_name_message(name@, id),
        },
{
    match identity_for_surface(rows, name) {
        None => Ok(()),
        Some(id) => {
            let mut message = owned("canonical name is immutable · канонічне ім'я незмінне · kanonischer Name ist unveränderlich: ");
            push_str(&mut message, name);
            push_str(&mut message, " -> ");
            push_str(&mut message, identity_name_exec(id));
            Err(LanguageError::new(ErrorKind::InvalidForm, message, span))
        },
    }
}

} // verus!
