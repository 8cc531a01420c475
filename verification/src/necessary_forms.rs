//! The evaluator mechanisms necessary beyond Canon 0 and the seven
//! primitives, DEFINE and LAMBDA, selected by numeric semantic identity;
//! their spellings come from the registry.
use vstd::prelude::*;
use crate::status_registry::{semantic_id_for_surface, semantic_id_for_surface_spec, StatusRow, StatusRowSpec};
use crate::text::str_eq;

verus! {

#[derive(Clone, Copy, Debug, PartialEq, Eq, Structural)]
pub enum NecessaryFormIdentity {
    Define,
    Lambda,
}

pub const LAMBDA_SEMANTIC_ID: &'static str = "0010";
pub const DEFINE_SEMANTIC_ID: &'static str = "0011";

pub open spec fn necessary_identity_spec(semantic_id: Seq<char>) -> Option<NecessaryFormIdentity> {
    if semantic_id == "0011"@ {
        Some(NecessaryFormIdentity::Define)
    } else if semantic_id == "0010"@ {
        Some(NecessaryFormIdentity::Lambda)
    } else {
        None
    }
}

/// The mechanism a numeric semantic identity selects.
pub fn identity_for_semantic_id(semantic_id: &str) -> (r: Option<NecessaryFormIdentity>)
    ensures
        r == necessary_identity_spec(semantic_id@),
{
    if str_eq(semantic_id, DEFINE_SEMANTIC_ID) {
        Some(NecessaryFormIdentity::Define)
    } else if str_eq(semantic_id, LAMBDA_SEMANTIC_ID) {
        Some(NecessaryFormIdentity::Lambda)
    } else {
        None
    }
}

pub open spec fn identity_for_symbol_spec(rows: Seq<StatusRowSpec>, name: Seq<char>) -> Option<NecessaryFormIdentity> {
    match semantic_id_for_surface_spec(rows, name) {
        Some(sid) => necessary_identity_spec(sid),
        None => None,
    }
}

/// The mechanism a list-head symbol selects: resolved through the
/// registry `rows`, then chosen by numeric semantic identity.
pub fn identity_for_symbol(rows: &Vec<StatusRow>, name: &str) -> (r: Option<NecessaryFormIdentity>)
    ensures
        r == identity_for_symbol_spec(Seq::new(rows@.len(), |i: int| rows@[i]@), name@),
{
    match semantic_id_for_surface(rows, name) {
        Some(sid) => identity_for_semantic_id(sid.as_str()),
        None => None,
    }
}

} // verus!
