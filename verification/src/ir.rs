//! Compiler IR: a parsed expression lowered into a provenance-bearing tree
//! that a compiler backend can inspect. Lowering adds no meaning the
//! registry and the evaluator do not already give: every node says why it
//! means what it means, and a form of a shape lowering does not know is
//! refused rather than guessed.
use vstd::prelude::*;
use crate::canon::{identity_for_surface, identity_for_surface_spec, CanonicalIdentity};
use crate::necessary_forms::{identity_for_symbol, identity_for_symbol_spec, NecessaryFormIdentity};
use crate::rational::Rational;
use crate::status_registry::{semantic_id_for_surface, semantic_id_for_surface_spec, StatusRow, StatusRowSpec};
use crate::syntax::{lemma_list_view, views, Datum, Expr, ExprKind, NumericBuffer, Span, Syntax};
use crate::text::{copy_string, decimal_digits, owned, push_decimal, push_str, str_eq, string_eq};

verus! {

/// The semantic identity of the macro-definition form.
pub const DEFMACRO_SEMANTIC_ID: &'static str = "0012";

/// How a lowered node's meaning is justified.
#[derive(Debug)]
pub enum Provenance {
    /// One of the Canon identities, resolved directly.
    Canon(CanonicalIdentity),
    /// `lambda` or `define`, an evaluator mechanism beyond Canon.
    NecessaryForm(NecessaryFormIdentity),
    /// The language-owned macro-construction mechanism.
    Defmacro,
    /// A registry identity that is an ordinary callable value.
    AdmittedSemanticIdentity(String),
    /// A binding the registry has no entry for.
    OrdinaryBinding,
    /// A literal read from source.
    Literal,
}

pub enum ProvenanceSpec {
    Canon(CanonicalIdentity),
    NecessaryForm(NecessaryFormIdentity),
    Defmacro,
    Admitted(Seq<char>),
    OrdinaryBinding,
    Literal,
}

impl Provenance {
    pub open spec fn view(&self) -> ProvenanceSpec {
        match self {
            Provenance::Canon(i) => ProvenanceSpec::Canon(*i),
            Provenance::NecessaryForm(i) => ProvenanceSpec::NecessaryForm(*i),
            Provenance::Defmacro => ProvenanceSpec::Defmacro,
            Provenance::AdmittedSemanticIdentity(s) => ProvenanceSpec::Admitted(s@),
            Provenance::OrdinaryBinding => ProvenanceSpec::OrdinaryBinding,
            Provenance::Literal => ProvenanceSpec::Literal,
        }
    }
}

/// A literal's exact value.
#[derive(Debug)]
pub enum LiteralValue {
    Number(i64),
    Rational(Rational),
    String(String),
    Symbol(String),
}

pub enum LiteralSpec {
    Number(int),
    Rational(int, int),
    Str(Seq<char>),
    Sym(Seq<char>),
}

impl LiteralValue {
    pub open spec fn view(&self) -> LiteralSpec {
        match self {
            LiteralValue::Number(n) => LiteralSpec::Number(*n as int),
            LiteralValue::Rational(q) => LiteralSpec::Rational(q.view().0, q.view().1),
            LiteralValue::String(s) => LiteralSpec::Str(s@),
            LiteralValue::Symbol(s) => LiteralSpec::Sym(s@),
        }
    }
}

/// A provenance-bearing IR node.
#[derive(Debug)]
pub enum IrNode {
    /// A literal value, carried through unchanged.
    Literal { value: LiteralValue, span: Span, provenance: Provenance },
    /// A symbol referenced for its bound value.
    VariableRef { name: String, span: Span, provenance: Provenance },
    /// `(quote datum)`: the datum stays unlowered source data.
    Quote { datum: Expr, span: Span },
    /// `(cond (test body...) ...)`: clauses in source order.
    Cond { clauses: Vec<CondClause>, span: Span },
    /// `(lambda params body...)`: parameters kept as source, body lowered.
    Lambda { params: Box<Expr>, body: Vec<IrNode>, span: Span },
    /// `(define name value)`.
    Define { name: String, value: Box<IrNode>, span: Span },
    /// `(defmacro name params body...)`: body kept as source.
    Defmacro { name: String, params: Box<Expr>, body: Vec<Expr>, span: Span },
    /// An ordinary application.
    Apply { callee: Box<IrNode>, args: Vec<IrNode>, span: Span },
}

#[derive(Debug)]
pub struct CondClause {
    pub test: IrNode,
    pub body: Vec<IrNode>,
}

pub enum IrSpec {
    Literal { value: LiteralSpec, span: Span, provenance: ProvenanceSpec },
    VariableRef { name: Seq<char>, span: Span, provenance: ProvenanceSpec },
    Quote { datum: Syntax, span: Span },
    Cond { clauses: Seq<(IrSpec, Seq<IrSpec>)>, span: Span },
    Lambda { params: Syntax, body: Seq<IrSpec>, span: Span },
    Define { name: Seq<char>, value: Box<IrSpec>, span: Span },
    Defmacro { name: Seq<char>, params: Syntax, body: Seq<Syntax>, span: Span },
    Apply { callee: Box<IrSpec>, args: Seq<IrSpec>, span: Span },
}

pub open spec fn filler(span: Span) -> IrSpec {
    IrSpec::Literal { value: LiteralSpec::Number(0), span, provenance: ProvenanceSpec::Literal }
}

impl IrNode {
    pub open spec fn view(&self) -> IrSpec
        decreases self,
    {
        match self {
            IrNode::Literal { value, span, provenance } => IrSpec::Literal {
                value: value.view(),
                span: *span,
                provenance: provenance.view(),
            },
            IrNode::VariableRef { name, span, provenance } => IrSpec::VariableRef {
                name: name@,
                span: *span,
                provenance: provenance.view(),
            },
            IrNode::Quote { datum, span } => IrSpec::Quote { datum: datum.view(), span: *span },
            IrNode::Cond { clauses, span } => IrSpec::Cond {
                clauses: Seq::new(
                    clauses@.len(),
                    |i: int|
                        if 0 <= i < clauses@.len() {
                            (
                                clauses@[i].test.view(),
                                Seq::new(
                                    clauses@[i].body@.len(),
                                    |j: int|
                                        if 0 <= j < clauses@[i].body@.len() {
                                            clauses@[i].body@[j].view()
                                        } else {
                                            filler(*span)
                                        },
                                ),
                            )
                        } else {
                            (filler(*span), Seq::empty())
                        },
                ),
                span: *span,
            },
            IrNode::Lambda { params, body, span } => IrSpec::Lambda {
                params: params.view(),
                body: Seq::new(
                    body@.len(),
                    |i: int|
                        if 0 <= i < body@.len() {
                            body@[i].view()
                        } else {
                            filler(*span)
                        },
                ),
                span: *span,
            },
            IrNode::Define { name, value, span } => IrSpec::Define {
                name: name@,
                value: Box::new(value.view()),
                span: *span,
            },
            IrNode::Defmacro { name, params, body, span } => IrSpec::Defmacro {
                name: name@,
                params: params.view(),
                body: views(body@),
                span: *span,
            },
            IrNode::Apply { callee, args, span } => IrSpec::Apply {
                callee: Box::new(callee.view()),
                args: Seq::new(
                    args@.len(),
                    |i: int|
                        if 0 <= i < args@.len() {
                            args@[i].view()
                        } else {
                            filler(*span)
                        },
                ),
                span: *span,
            },
        }
    }
}

/// Why a form cannot be lowered.
#[derive(Debug)]
pub enum LoweringError {
    /// A head resolving to a syntax identity lowering was not taught.
    UnrecognizedSyntaxIdentity { semantic_id: String, span: Span },
    /// A form shape lowering does not know how to interpret.
    MalformedForm { detail: String, span: Span },
}

pub enum LoweringErrorSpec {
    Unrecognized { semantic_id: Seq<char>, span: Span },
    Malformed { detail: Seq<char>, span: Span },
}

impl LoweringError {
    pub open spec fn view(&self) -> LoweringErrorSpec {
        match self {
            LoweringError::UnrecognizedSyntaxIdentity { semantic_id, span } => LoweringErrorSpec::Unrecognized {
                semantic_id: semantic_id@,
                span: *span,
            },
            LoweringError::MalformedForm { detail, span } => LoweringErrorSpec::Malformed {
                detail: detail@,
                span: *span,
            },
        }
    }
}

/// The syntax identities lowering treats as special-form shaped.
#[derive(Clone, Copy, Debug, PartialEq, Eq, Structural)]
pub enum KnownSyntaxId {
    Quote,
    Cond,
    Lambda,
    Define,
    Defmacro,
}

pub open spec fn classify_syntax_id_spec(semantic_id: Seq<char>) -> Option<KnownSyntaxId> {
    if semantic_id == "0001"@ {
        Some(KnownSyntaxId::Quote)
    } else if semantic_id == "0007"@ {
        Some(KnownSyntaxId::Cond)
    } else if semantic_id == "0010"@ {
        Some(KnownSyntaxId::Lambda)
    } else if semantic_id == "0011"@ {
        Some(KnownSyntaxId::Define)
    } else if semantic_id == "0012"@ {
        Some(KnownSyntaxId::Defmacro)
    } else {
        None
    }
}

/// Whether a semantic identity is one lowering handles as a special form;
/// any other identity is refused, never guessed.
pub fn classify_syntax_id(semantic_id: &str) -> (r: Option<KnownSyntaxId>)
    ensures
        r == classify_syntax_id_spec(semantic_id@),
{
    if str_eq(semantic_id, "0001") {
        Some(KnownSyntaxId::Quote)
    } else if str_eq(semantic_id, "0007") {
        Some(KnownSyntaxId::Cond)
    } else if str_eq(semantic_id, "0010") {
        Some(KnownSyntaxId::Lambda)
    } else if str_eq(semantic_id, "0011") {
        Some(KnownSyntaxId::Define)
    } else if str_eq(semantic_id, "0012") {
        Some(KnownSyntaxId::Defmacro)
    } else {
        None
    }
}

// ---------------------------------------------------------------------------
// What lowering gives
// ---------------------------------------------------------------------------

pub open spec fn malformed(detail: Seq<char>, span: Span) -> LoweringErrorSpec {
    LoweringErrorSpec::Malformed { detail, span }
}

/// The provenance of a symbol reference: Canon first, then the necessary
/// forms, then the macro form, then any other registry identity.
pub open spec fn symbol_provenance(rows: Seq<StatusRowSpec>, name: Seq<char>) -> ProvenanceSpec {
    match identity_for_surface_spec(rows, name) {
        Some(id) => ProvenanceSpec::Canon(id),
        None => match identity_for_symbol_spec(rows, name) {
            Some(i) => ProvenanceSpec::NecessaryForm(i),
            None => match semantic_id_for_surface_spec(rows, name) {
                Some(sid) => if sid == "0012"@ {
                    ProvenanceSpec::Defmacro
                } else {
                    ProvenanceSpec::Admitted(sid)
                },
                None => ProvenanceSpec::OrdinaryBinding,
            },
        },
    }
}

/// The lowered nodes, or the first failure in order.
pub open spec fn all_ok(rs: Seq<Result<IrSpec, LoweringErrorSpec>>) -> Result<Seq<IrSpec>, LoweringErrorSpec>
    decreases rs.len(),
{
    if rs.len() == 0 {
        Ok(Seq::empty())
    } else {
        match all_ok(rs.drop_last()) {
            Err(e) => Err(e),
            Ok(v) => match rs.last() {
                Err(e) => Err(e),
                Ok(x) => Ok(v.push(x)),
            },
        }
    }
}

pub open spec fn application(lowered: Seq<Result<IrSpec, LoweringErrorSpec>>, span: Span) -> Result<IrSpec, LoweringErrorSpec> {
    match all_ok(lowered) {
        Err(e) => Err(e),
        Ok(v) => Ok(IrSpec::Apply { callee: Box::new(v[0]), args: v.drop_first(), span }),
    }
}

pub open spec fn define_form(items: Seq<Syntax>, lowered: Seq<Result<IrSpec, LoweringErrorSpec>>, span: Span) -> Result<IrSpec, LoweringErrorSpec> {
    if items.len() != 3 {
        Err(malformed("define/def takes exactly two arguments, got "@ + decimal_digits((items.len() - 1) as nat), span))
    } else {
        match items[1].datum {
            Datum::Sym(n) => match lowered[2] {
                Ok(v) => Ok(IrSpec::Define { name: n, value: Box::new(v), span }),
                Err(e) => Err(e),
            },
            _ => Err(malformed("define/def's first argument must be a symbol"@, items[1].span)),
        }
    }
}

pub open spec fn lambda_form(items: Seq<Syntax>, lowered: Seq<Result<IrSpec, LoweringErrorSpec>>, span: Span) -> Result<IrSpec, LoweringErrorSpec> {
    if items.len() < 2 {
        Err(malformed("lambda requires a parameter list"@, span))
    } else {
        match all_ok(lowered.skip(2)) {
            Ok(body) => Ok(IrSpec::Lambda { params: items[1], body, span }),
            Err(e) => Err(e),
        }
    }
}

pub open spec fn defmacro_form(items: Seq<Syntax>, span: Span) -> Result<IrSpec, LoweringErrorSpec> {
    if items.len() < 2 {
        Err(malformed("defmacro requires at least a name"@, span))
    } else {
        match items[1].datum {
            Datum::Sym(n) => if items.len() < 3 {
                Err(malformed("defmacro requires a parameter list"@, span))
            } else {
                Ok(IrSpec::Defmacro { name: n, params: items[2], body: items.skip(3), span })
            },
            _ => Err(malformed("defmacro's first argument must be a symbol"@, items[1].span)),
        }
    }
}

/// The lowered clauses of a `cond` from item `k` on.
pub open spec fn cond_clauses(
    items: Seq<Syntax>,
    clauses: Seq<Seq<Result<IrSpec, LoweringErrorSpec>>>,
    k: int,
) -> Result<Seq<(IrSpec, Seq<IrSpec>)>, LoweringErrorSpec>
    decreases items.len() - k,
{
    if k < 0 || k >= items.len() {
        Ok(Seq::empty())
    } else {
        match items[k].datum {
            Datum::List(cis) => if cis.len() == 0 {
                Err(malformed("cond clause must have at least a test"@, items[k].span))
            } else {
                match clauses[k][0] {
                    Err(e) => Err(e),
                    Ok(test) => match all_ok(clauses[k].drop_first()) {
                        Err(e) => Err(e),
                        Ok(body) => match cond_clauses(items, clauses, k + 1) {
                            Err(e) => Err(e),
                            Ok(rest) => Ok(seq![(test, body)] + rest),
                        },
                    },
                }
            },
            _ => Err(malformed("each cond clause must be a list (test body...)"@, items[k].span)),
        }
    }
}

/// A list whose head is `head_name`, given its items lowered one by one
/// and, for list items, their own items lowered.
pub open spec fn named_form(
    rows: Seq<StatusRowSpec>,
    head_name: Seq<char>,
    items: Seq<Syntax>,
    lowered: Seq<Result<IrSpec, LoweringErrorSpec>>,
    clauses: Seq<Seq<Result<IrSpec, LoweringErrorSpec>>>,
    span: Span,
) -> Result<IrSpec, LoweringErrorSpec> {
    match identity_for_surface_spec(rows, head_name) {
        Some(CanonicalIdentity::Quote) => if items.len() == 2 {
            Ok(IrSpec::Quote { datum: items[1], span })
        } else {
            Err(malformed("quote takes exactly one argument, got "@ + decimal_digits((items.len() - 1) as nat), span))
        },
        Some(CanonicalIdentity::Cond) => match cond_clauses(items, clauses, 1) {
            Ok(cs) => Ok(IrSpec::Cond { clauses: cs, span }),
            Err(e) => Err(e),
        },
        Some(_) => application(lowered, span),
        None => if identity_for_symbol_spec(rows, head_name) == Some(NecessaryFormIdentity::Define) {
            define_form(items, lowered, span)
        } else if identity_for_symbol_spec(rows, head_name) == Some(NecessaryFormIdentity::Lambda) {
            lambda_form(items, lowered, span)
        } else if semantic_id_for_surface_spec(rows, head_name) == Some("0012"@) {
            defmacro_form(items, span)
        } else {
            application(lowered, span)
        },
    }
}

pub open spec fn filler_err(span: Span) -> Result<IrSpec, LoweringErrorSpec> {
    Err(malformed(Seq::empty(), span))
}

/// Each expression lowered on its own.
pub open spec fn lowered_of(rows: Seq<StatusRowSpec>, xs: Seq<Syntax>) -> Seq<Result<IrSpec, LoweringErrorSpec>>
    decreases xs,
{
    Seq::new(
        xs.len(),
        |i: int|
            if 0 <= i < xs.len() {
                lower_spec(rows, xs[i])
            } else {
                filler_err(Span { start: 0, end: 0 })
            },
    )
}

/// For each list item, its own items lowered one by one.
pub open spec fn clause_lowered(rows: Seq<StatusRowSpec>, xs: Seq<Syntax>) -> Seq<Seq<Result<IrSpec, LoweringErrorSpec>>>
    decreases xs,
{
    Seq::new(
        xs.len(),
        |i: int|
            if 0 <= i < xs.len() {
                match xs[i].datum {
                    Datum::List(cis) => lowered_of(rows, cis),
                    _ => Seq::empty(),
                }
            } else {
                Seq::empty()
            },
    )
}

/// What lowering an expression gives, through the status registry `rows`.
pub open spec fn lower_spec(rows: Seq<StatusRowSpec>, s: Syntax) -> Result<IrSpec, LoweringErrorSpec>
    decreases s,
{
    match s.datum {
        Datum::Number(n) => Ok(IrSpec::Literal { value: LiteralSpec::Number(n), span: s.span, provenance: ProvenanceSpec::Literal }),
        Datum::Rational(a, b) => Ok(IrSpec::Literal { value: LiteralSpec::Rational(a, b), span: s.span, provenance: ProvenanceSpec::Literal }),
        Datum::Str(t) => Ok(IrSpec::Literal { value: LiteralSpec::Str(t), span: s.span, provenance: ProvenanceSpec::Literal }),
        Datum::Sym(name) => Ok(IrSpec::VariableRef { name, span: s.span, provenance: symbol_provenance(rows, name) }),
        Datum::List(items) => if items.len() == 0 {
            Ok(IrSpec::Literal {
                value: LiteralSpec::Sym("()"@),
                span: s.span,
                provenance: ProvenanceSpec::Canon(CanonicalIdentity::EmptyList),
            })
        } else {
            let lowered = lowered_of(rows, items);
            let clauses = clause_lowered(rows, items);
            match items[0].datum {
                Datum::Sym(h) => named_form(rows, h, items, lowered, clauses, s.span),
                _ => application(lowered, s.span),
            }
        },
        _ => Err(malformed("numeric buffers and dotted pairs are data-only forms, never executable heads"@, s.span)),
    }
}

} // verus!

verus! {

pub open spec fn irviews(v: Seq<IrNode>) -> Seq<IrSpec> {
    Seq::new(v.len(), |i: int| v[i].view())
}


pub open spec fn rows_of(rows: Seq<StatusRow>) -> Seq<StatusRowSpec> {
    Seq::new(rows.len(), |i: int| rows[i]@)
}

proof fn lemma_all_ok_push(rs: Seq<Result<IrSpec, LoweringErrorSpec>>, x: Result<IrSpec, LoweringErrorSpec>)
    ensures
        all_ok(rs.push(x)) == match all_ok(rs) {
            Err(e) => Err(e),
            Ok(v) => match x {
                Err(e) => Err(e),
                Ok(y) => Ok(v.push(y)),
            },
        },
{
    assert(rs.push(x).drop_last() =~= rs);
}

proof fn lemma_all_ok_err_prefix(rs: Seq<Result<IrSpec, LoweringErrorSpec>>, k: int)
    requires
        0 <= k <= rs.len(),
        all_ok(rs.take(k)) is Err,
    ensures
        all_ok(rs) == all_ok(rs.take(k)),
    decreases rs.len() - k,
{
    if k < rs.len() {
        lemma_all_ok_push(rs.take(k), rs[k]);
        assert(rs.take(k).push(rs[k]) =~= rs.take(k + 1));
        lemma_all_ok_err_prefix(rs, k + 1);
    } else {
        assert(rs.take(k) =~= rs);
    }
}

fn malformed_error(detail: &str, span: Span) -> (r: LoweringError)
    ensures
        r.view() == malformed(detail@, span),
{
    LoweringError::MalformedForm { detail: owned(detail), span }
}

fn lower_symbol_reference(rows: &Vec<StatusRow>, name: &String, span: Span) -> (r: IrNode)
    ensures
        r.view() == (IrSpec::VariableRef { name: name@, span, provenance: symbol_provenance(rows_of(rows@), name@) }),
{
    let provenance = match identity_for_surface(rows, name.as_str()) {
        Some(id) => Provenance::Canon(id),
        None => match identity_for_symbol(rows, name.as_str()) {
            Some(i) => Provenance::NecessaryForm(i),
            None => match semantic_id_for_surface(rows, name.as_str()) {
                Some(sid) => if str_eq(sid.as_str(), DEFMACRO_SEMANTIC_ID) {
                    Provenance::Defmacro
                } else {
                    Provenance::AdmittedSemanticIdentity(sid)
                },
                None => Provenance::OrdinaryBinding,
            },
        },
    };
    IrNode::VariableRef { name: copy_string(name), span, provenance }
}

/// Lowers the items of a list from index `from` on, in order.
fn lower_all(rows: &Vec<StatusRow>, parent: &Expr, items: &Vec<Expr>, from: usize) -> (r: Result<Vec<IrNode>, LoweringError>)
    requires
        parent.kind == ExprKind::List(*items),
        from <= items@.len(),
    ensures
        match r {
            Ok(v) => all_ok(lowered_of(rows_of(rows@), views(items@)).skip(from as int)) == Ok::<Seq<IrSpec>, LoweringErrorSpec>(irviews(v@)),
            Err(e) => all_ok(lowered_of(rows_of(rows@), views(items@)).skip(from as int)) == Err::<Seq<IrSpec>, LoweringErrorSpec>(e.view()),
        },
    decreases parent, 0nat,
{
    let ghost ls = lowered_of(rows_of(rows@), views(items@)).skip(from as int);
    let mut out: Vec<IrNode> = Vec::new();
    let mut i = from;
    proof {
        assert(ls.take(0) =~= Seq::<Result<IrSpec, LoweringErrorSpec>>::empty());
        assert(irviews(out@) =~= Seq::<IrSpec>::empty());
    }
    while i < items.len()
        invariant
            from <= i <= items@.len(),
            parent.kind == ExprKind::List(*items),
            ls == lowered_of(rows_of(rows@), views(items@)).skip(from as int),
            all_ok(ls.take(i - from)) == Ok::<Seq<IrSpec>, LoweringErrorSpec>(irviews(out@)),
        decreases items.len() - i,
    {
        proof {
            assert(decreases_to!(*parent => parent.kind));
            assert(parent.kind->List_0 == *items);
            assert(decreases_to!(parent.kind => parent.kind->List_0));
            assert(decreases_to!(*items => items@));
            assert(decreases_to!(items@ => items@[i as int]));
        }
        let x = lower(rows, &items[i]);
        proof {
            assert(ls[i - from] == lower_spec(rows_of(rows@), items@[i as int].view()));
            lemma_all_ok_push(ls.take(i - from), ls[i - from]);
            assert(ls.take(i - from).push(ls[i - from]) =~= ls.take(i - from + 1));
        }
        match x {
            Ok(node) => {
                let ghost before = out@;
                out.push(node);
                proof {
                    assert(irviews(out@) =~= irviews(before).push(node.view()));
                }
            },
            Err(e) => {
                proof {
                    lemma_all_ok_err_prefix(ls, i - from + 1);
                }
                return Err(e);
            },
        }
        i += 1;
    }
    proof {
        assert(ls.take(i - from) =~= ls);
    }
    Ok(out)
}

} // verus!

verus! {

pub open spec fn clauseviews(v: Seq<CondClause>) -> Seq<(IrSpec, Seq<IrSpec>)> {
    Seq::new(v.len(), |i: int| (v[i].test.view(), irviews(v[i].body@)))
}

/// Lowers the clauses of a `cond` list, in order.
fn lower_cond(rows: &Vec<StatusRow>, parent: &Expr, items: &Vec<Expr>) -> (r: Result<Vec<CondClause>, LoweringError>)
    requires
        parent.kind == ExprKind::List(*items),
    ensures
        match r {
            Ok(v) => cond_clauses(views(items@), clause_lowered(rows_of(rows@), views(items@)), 1)
                == Ok::<Seq<(IrSpec, Seq<IrSpec>)>, LoweringErrorSpec>(clauseviews(v@)),
            Err(e) => cond_clauses(views(items@), clause_lowered(rows_of(rows@), views(items@)), 1)
                == Err::<Seq<(IrSpec, Seq<IrSpec>)>, LoweringErrorSpec>(e.view()),
        },
    decreases parent, 0nat,
{
    let ghost xs = views(items@);
    let ghost cl = clause_lowered(rows_of(rows@), xs);
    let mut out: Vec<CondClause> = Vec::new();
    let mut k: usize = 1;
    proof {
        assert(clauseviews(out@) =~= Seq::<(IrSpec, Seq<IrSpec>)>::empty());
        match cond_clauses(xs, cl, 1) {
            Ok(rest) => assert(Seq::<(IrSpec, Seq<IrSpec>)>::empty() + rest =~= rest),
            Err(_) => {},
        }
    }
    while k < items.len()
        invariant
            1 <= k,
            k <= items@.len() || items@.len() == 0,
            parent.kind == ExprKind::List(*items),
            xs == views(items@),
            cl == clause_lowered(rows_of(rows@), xs),
            cond_clauses(xs, cl, 1) == match cond_clauses(xs, cl, k as int) {
                Ok(rest) => Ok::<Seq<(IrSpec, Seq<IrSpec>)>, LoweringErrorSpec>(clauseviews(out@) + rest),
                Err(e) => Err(e),
            },
        decreases items.len() - k,
    {
        let clause = &items[k];
        proof {
            assert(xs[k as int] == clause.view());
            assert(decreases_to!(*parent => parent.kind));
            assert(parent.kind->List_0 == *items);
            assert(decreases_to!(parent.kind => parent.kind->List_0));
            assert(decreases_to!(*items => items@));
            assert(decreases_to!(items@ => items@[k as int]));
        }
        match &clause.kind {
            ExprKind::List(cis) => {
                proof {
                    lemma_list_view(clause, cis);
                    assert(cl[k as int] =~= lowered_of(rows_of(rows@), views(cis@)));
                }
                if cis.len() == 0 {
                    return Err(malformed_error("cond clause must have at least a test", clause.span));
                }
                proof {
                    assert(decreases_to!(*clause => clause.kind));
                    assert(clause.kind->List_0 == *cis);
                    assert(decreases_to!(clause.kind => clause.kind->List_0));
                    assert(decreases_to!(*cis => cis@));
                    assert(decreases_to!(cis@ => cis@[0]));
                }
                let test = match lower(rows, &cis[0]) {
                    Ok(t) => t,
                    Err(e) => {
                        return Err(e);
                    },
                };
                let body = match lower_all(rows, clause, cis, 1) {
                    Ok(b) => b,
                    Err(e) => {
                        proof {
                            assert(cl[k as int].drop_first() =~= lowered_of(rows_of(rows@), views(cis@)).skip(1));
                        }
                        return Err(e);
                    },
                };
                proof {
                    assert(cl[k as int].drop_first() =~= lowered_of(rows_of(rows@), views(cis@)).skip(1));
                }
                let ghost before = out@;
                let ghost tv = test.view();
                let ghost bv = irviews(body@);
                out.push(CondClause { test, body });
                proof {
                    assert(clauseviews(out@) =~= clauseviews(before).push((tv, bv)));
                    match cond_clauses(xs, cl, k + 1) {
                        Ok(rest) => {
                            assert(clauseviews(before) + (seq![(tv, bv)] + rest) =~= clauseviews(out@) + rest);
                        },
                        Err(_) => {},
                    }
                }
            },
            _ => {
                return Err(malformed_error("each cond clause must be a list (test body...)", clause.span));
            },
        }
        k += 1;
    }
    proof {
        assert(cond_clauses(xs, cl, k as int) == Ok::<Seq<(IrSpec, Seq<IrSpec>)>, LoweringErrorSpec>(Seq::empty()));
        assert(clauseviews(out@) + Seq::<(IrSpec, Seq<IrSpec>)>::empty() =~= clauseviews(out@));
    }
    Ok(out)
}

} // verus!

verus! {

proof fn lemma_all_ok_len(rs: Seq<Result<IrSpec, LoweringErrorSpec>>)
    ensures
        all_ok(rs) matches Ok(v) ==> v.len() == rs.len(),
    decreases rs.len(),
{
    if rs.len() > 0 {
        lemma_all_ok_len(rs.drop_last());
    }
}

/// Lowering a non-empty list, with its items lowered one by one.
proof fn lemma_lower_list(rv: Seq<StatusRowSpec>, s: Syntax)
    requires
        s.datum is List,
        s.datum->List_0.len() > 0,
    ensures
        ({
            let xs = s.datum->List_0;
            lower_spec(rv, s) == match xs[0].datum {
                Datum::Sym(h) => named_form(rv, h, xs, lowered_of(rv, xs), clause_lowered(rv, xs), s.span),
                _ => application(lowered_of(rv, xs), s.span),
            }
        }),
{
}

fn count_message(prefix: &str, n: usize) -> (r: String)
    ensures
        r@ == prefix@ + decimal_digits(n as nat),
{
    let mut m = owned(prefix);
    push_decimal(&mut m, n as u64);
    m
}

/// Lowers one parsed expression into IR, resolving spellings through the
/// status registry `rows`; a form of a shape lowering does not know is
/// refused.
pub fn lower(rows: &Vec<StatusRow>, expr: &Expr) -> (r: Result<IrNode, LoweringError>)
    ensures
        match r {
            Ok(node) => lower_spec(rows_of(rows@), expr.view()) == Ok::<IrSpec, LoweringErrorSpec>(node.view()),
            Err(e) => lower_spec(rows_of(rows@), expr.view()) == Err::<IrSpec, LoweringErrorSpec>(e.view()),
        },
    decreases expr, 1nat,
{
    let span = expr.span;
    match &expr.kind {
        ExprKind::Number(n) => Ok(IrNode::Literal { value: LiteralValue::Number(*n), span, provenance: Provenance::Literal }),
        ExprKind::Rational(q) => Ok(IrNode::Literal { value: LiteralValue::Rational(q.duplicate()), span, provenance: Provenance::Literal }),
        ExprKind::String(t) => Ok(IrNode::Literal { value: LiteralValue::String(copy_string(t)), span, provenance: Provenance::Literal }),
        ExprKind::Symbol(name) => Ok(lower_symbol_reference(rows, name, span)),
        ExprKind::NumericBuffer(_) | ExprKind::Pair(_, _) => Err(
            malformed_error("numeric buffers and dotted pairs are data-only forms, never executable heads", span),
        ),
        ExprKind::List(items) => {
            proof {
                lemma_list_view(expr, items);
            }
            let ghost rv = rows_of(rows@);
            let ghost xs = views(items@);
            if items.len() == 0 {
                return Ok(IrNode::Literal {
                    value: LiteralValue::Symbol(owned("()")),
                    span,
                    provenance: Provenance::Canon(CanonicalIdentity::EmptyList),
                });
            }
            proof {
                lemma_lower_list(rv, expr.view());
                assert(xs[0] == items@[0].view());
            }
            let head_name = match &items[0].kind {
                ExprKind::Symbol(h) => Some(h),
                _ => None,
            };
            match head_name {
                Some(h) => {
                    match identity_for_surface(rows, h.as_str()) {
                        Some(CanonicalIdentity::Quote) => {
                            if items.len() == 2 {
                                proof {
                                    assert(xs[1] == items@[1].view());
                                }
                                return Ok(IrNode::Quote { datum: items[1].duplicate(), span });
                            }
                            return Err(LoweringError::MalformedForm {
                                detail: count_message("quote takes exactly one argument, got ", items.len() - 1),
                                span,
                            });
                        },
                        Some(CanonicalIdentity::Cond) => {
                            return match lower_cond(rows, expr, items) {
                                Ok(clauses) => {
                                    let ghost cv = clauseviews(clauses@);
                                    let node = IrNode::Cond { clauses, span };
                                    proof {
                                        let c = node.view()->Cond_clauses;
                                        assert forall|i: int| 0 <= i < c.len() implies c[i] == cv[i] by {
                                            assert(c[i].1 =~= cv[i].1);
                                        }
                                        assert(c =~= cv);
                                    }
                                    Ok(node)
                                },
                                Err(e) => Err(e),
                            };
                        },
                        Some(_) => {},
                        None => {
                            let nf = identity_for_symbol(rows, h.as_str());
                            let sid = semantic_id_for_surface(rows, h.as_str());
                            let is_defmacro = match &sid {
                                Some(s) => str_eq(s.as_str(), DEFMACRO_SEMANTIC_ID),
                                None => false,
                            };
                            proof {
                                reveal_strlit("0012");
                            }
                            if nf == Some(NecessaryFormIdentity::Define) {
                                if items.len() != 3 {
                                    return Err(LoweringError::MalformedForm {
                                        detail: count_message("define/def takes exactly two arguments, got ", items.len() - 1),
                                        span,
                                    });
                                }
                                proof {
                                    assert(xs[1] == items@[1].view());
                                    assert(xs[2] == items@[2].view());
                                }
                                match &items[1].kind {
                                    ExprKind::Symbol(name) => {
                                        proof {
                                            assert(decreases_to!(*expr => expr.kind));
                                            assert(expr.kind->List_0 == *items);
                                            assert(decreases_to!(expr.kind => expr.kind->List_0));
                                            assert(decreases_to!(*items => items@));
                                            assert(decreases_to!(items@ => items@[2]));
                                        }
                                        return match lower(rows, &items[2]) {
                                            Ok(v) => Ok(IrNode::Define { name: copy_string(name), value: Box::new(v), span }),
                                            Err(e) => Err(e),
                                        };
                                    },
                                    _ => {
                                        return Err(malformed_error("define/def's first argument must be a symbol", items[1].span));
                                    },
                                }
                            } else if nf == Some(NecessaryFormIdentity::Lambda) {
                                if items.len() < 2 {
                                    return Err(malformed_error("lambda requires a parameter list", span));
                                }
                                proof {
                                    assert(xs[1] == items@[1].view());
                                }
                                return match lower_all(rows, expr, items, 2) {
                                    Ok(body) => {
                                        let ghost bv = irviews(body@);
                                        let node = IrNode::Lambda { params: Box::new(items[1].duplicate()), body, span };
                                        proof {
                                            assert(node.view()->Lambda_body =~= bv);
                                        }
                                        Ok(node)
                                    },
                                    Err(e) => Err(e),
                                };
                            } else if is_defmacro {
                                if items.len() < 2 {
                                    return Err(malformed_error("defmacro requires at least a name", span));
                                }
                                proof {
                                    assert(xs[1] == items@[1].view());
                                }
                                match &items[1].kind {
                                    ExprKind::Symbol(name) => {
                                        if items.len() < 3 {
                                            return Err(malformed_error("defmacro requires a parameter list", span));
                                        }
                                        proof {
                                            assert(xs[2] == items@[2].view());
                                        }
                                        let params = items[2].duplicate();
                                        let mut body: Vec<Expr> = Vec::new();
                                        let mut i: usize = 3;
                                        while i < items.len()
                                            invariant
                                                3 <= i <= items@.len(),
                                                xs == views(items@),
                                                views(body@) == xs.subrange(3, i as int),
                                            decreases items.len() - i,
                                        {
                                            let d = items[i].duplicate();
                                            let ghost before = body@;
                                            body.push(d);
                                            proof {
                                                assert(views(body@) =~= views(before).push(d.view()));
                                                assert(xs.subrange(3, i + 1) =~= xs.subrange(3, i as int).push(xs[i as int]));
                                            }
                                            i += 1;
                                        }
                                        proof {
                                            assert(xs.subrange(3, xs.len() as int) =~= xs.skip(3));
                                        }
                                        return Ok(IrNode::Defmacro { name: copy_string(name), params: Box::new(params), body, span });
                                    },
                                    _ => {
                                        return Err(malformed_error("defmacro's first argument must be a symbol", items[1].span));
                                    },
                                }
                            }
                        },
                    }
                },
                None => {},
            }
            match lower_all(rows, expr, items, 0) {
                Ok(v) => {
                    proof {
                        assert(lowered_of(rv, xs).skip(0) =~= lowered_of(rv, xs));
                    }
                    proof {
                        lemma_all_ok_len(lowered_of(rv, xs));
                    }
                    let mut args = v;
                    let ghost av = irviews(args@);
                    let callee = args.remove(0);
                    proof {
                        assert(irviews(args@) =~= av.drop_first());
                    }
                    let node = IrNode::Apply { callee: Box::new(callee), args, span };
                    proof {
                        assert(node.view()->Apply_args =~= av.drop_first());
                    }
                    Ok(node)
                },
                Err(e) => {
                    proof {
                        assert(lowered_of(rv, xs).skip(0) =~= lowered_of(rv, xs));
                    }
                    Err(e)
                },
            }
        },
    }
}

} // verus!

verus! {

/// The debug spelling of a provenance; a registry identity is quoted as
/// it stands.
pub open spec fn provenance_text(p: ProvenanceSpec) -> Seq<char> {
    match p {
        ProvenanceSpec::Canon(id) => "Canon("@ + crate::canon::identity_name(id) + ")"@,
        ProvenanceSpec::NecessaryForm(NecessaryFormIdentity::Define) => "NecessaryForm(Define)"@,
        ProvenanceSpec::NecessaryForm(NecessaryFormIdentity::Lambda) => "NecessaryForm(Lambda)"@,
        ProvenanceSpec::Defmacro => "Defmacro"@,
        ProvenanceSpec::Admitted(s) => "AdmittedSemanticIdentity(\""@ + s + "\")"@,
        ProvenanceSpec::OrdinaryBinding => "OrdinaryBinding"@,
        ProvenanceSpec::Literal => "Literal"@,
    }
}

/// How one node became executable data, in one line.
pub open spec fn explain_text(n: IrSpec) -> Seq<char> {
    match n {
        IrSpec::Literal { provenance, .. } => "literal value ("@ + provenance_text(provenance) + ")"@,
        IrSpec::VariableRef { name, provenance, .. } => "reference to `"@ + name + "` ("@ + provenance_text(provenance)
            + ")"@,
        IrSpec::Quote { .. } => "quote: datum preserved as unlowered source data (G3)"@,
        IrSpec::Cond { clauses, .. } => "cond: "@ + decimal_digits(clauses.len()) + " clause(s), Canon 0 special form"@,
        IrSpec::Lambda { body, .. } => "lambda: "@ + decimal_digits(body.len()) + " body expression(s), semantic identity 0010"@,
        IrSpec::Define { name, .. } => "define/def: binds `"@ + name + "`, semantic identity 0011"@,
        IrSpec::Defmacro { name, .. } => "defmacro: constructs macro `"@ + name + "`, semantic identity 0012"@,
        IrSpec::Apply { args, .. } => "application with "@ + decimal_digits(args.len()) + " argument(s)"@,
    }
}

fn push_provenance(out: &mut String, p: &Provenance)
    ensures
        final(out)@ == old(out)@ + provenance_text(p.view()),
{
    match p {
        Provenance::Canon(id) => {
            push_str(out, "Canon(");
            let name = crate::canon::identity_name_exec(*id);
            push_str(out, name);
            push_str(out, ")");
        },
        Provenance::NecessaryForm(NecessaryFormIdentity::Define) => push_str(out, "NecessaryForm(Define)"),
        Provenance::NecessaryForm(NecessaryFormIdentity::Lambda) => push_str(out, "NecessaryForm(Lambda)"),
        Provenance::Defmacro => push_str(out, "Defmacro"),
        Provenance::AdmittedSemanticIdentity(s) => {
            push_str(out, "AdmittedSemanticIdentity(\"");
            push_str(out, s.as_str());
            push_str(out, "\")");
        },
        Provenance::OrdinaryBinding => push_str(out, "OrdinaryBinding"),
        Provenance::Literal => push_str(out, "Literal"),
    }
}

/// A one-line trace of how a node became executable data; callers walk
/// the tree and explain node by node.
pub fn explain(node: &IrNode) -> (r: String)
    ensures
        r@ == explain_text(node.view()),
{
    let mut out = String::new();
    match node {
        IrNode::Literal { provenance, .. } => {
            push_str(&mut out, "literal value (");
            push_provenance(&mut out, provenance);
            push_str(&mut out, ")");
        },
        IrNode::VariableRef { name, provenance, .. } => {
            push_str(&mut out, "reference to `");
            push_str(&mut out, name.as_str());
            push_str(&mut out, "` (");
            push_provenance(&mut out, provenance);
            push_str(&mut out, ")");
        },
        IrNode::Quote { .. } => {
            push_str(&mut out, "quote: datum preserved as unlowered source data (G3)");
        },
        IrNode::Cond { clauses, .. } => {
            push_str(&mut out, "cond: ");
            push_decimal(&mut out, clauses.len() as u64);
            push_str(&mut out, " clause(s), Canon 0 special form");
        },
        IrNode::Lambda { body, .. } => {
            push_str(&mut out, "lambda: ");
            push_decimal(&mut out, body.len() as u64);
            push_str(&mut out, " body expression(s), semantic identity 0010");
        },
        IrNode::Define { name, .. } => {
            push_str(&mut out, "define/def: binds `");
            push_str(&mut out, name.as_str());
            push_str(&mut out, "`, semantic identity 0011");
        },
        IrNode::Defmacro { name, .. } => {
            push_str(&mut out, "defmacro: constructs macro `");
            push_str(&mut out, name.as_str());
            push_str(&mut out, "`, semantic identity 0012");
        },
        IrNode::Apply { args, .. } => {
            push_str(&mut out, "application with ");
            push_decimal(&mut out, args.len() as u64);
            push_str(&mut out, " argument(s)");
        },
    }
    proof {
        assert(out@ =~= explain_text(node.view()));
    }
    out
}

/// Law: a lowered `defmacro` names its second item, takes its third item as
/// the parameter list, and has as body exactly the items after that, in
/// order: as many body forms as the form has items beyond three.
pub proof fn law_defmacro_body_follows_parameters(rows: Seq<StatusRowSpec>, s: Syntax)
    ensures
        lower_spec(rows, s) matches Ok(IrSpec::Defmacro { name, params, body, span }) ==> (
        s.datum matches Datum::List(items) && items.len() >= 3 && items[1].datum == Datum::Sym(name)
            && params == items[2] && body.len() == items.len() - 3 && (forall|i: int|
            0 <= i < body.len() ==> #[trigger] body[i] == items[i + 3]) && span == s.span),
{
    if let Datum::List(items) = s.datum {
        if items.len() > 0 {
            let lowered = lowered_of(rows, items);
            let clauses = clause_lowered(rows, items);
            if let Datum::Sym(h) = items[0].datum {
                let r = named_form(rows, h, items, lowered, clauses, s.span);
                if r matches Ok(IrSpec::Defmacro { .. }) {
                    assert(identity_for_surface_spec(rows, h) is None);
                    assert(identity_for_symbol_spec(rows, h) != Some(NecessaryFormIdentity::Define));
                    assert(identity_for_symbol_spec(rows, h) != Some(NecessaryFormIdentity::Lambda));
                    assert(r == defmacro_form(items, s.span));
                }
            }
        }
    }
}

} // verus!
