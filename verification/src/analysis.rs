//! Structural analysis of a document for language tooling: the definitions
//! the parse tree proves, the symbol occurrences that are code references,
//! and the mapping between byte offsets and editor positions.
//!
//! Everything here is derived from the canonical reader; a definition
//! exists only where a top-level `(def name ...)` or `(defmacro name ...)`
//! list has a symbol in second position.
use vstd::prelude::*;
use crate::error::LanguageError;
use crate::reader::{parse, spec_parse};
use crate::syntax::{views, Datum, Expr, ExprKind, Span, Syntax};
use crate::text::{byte_offset, char_width, char_width_exec, chars_of, copy_string, lemma_byte_offset_monotone, lemma_byte_offset_step, owned, str_eq, string_eq, string_from_chars, utf8_len};

verus! {

/// A definition the language can structurally prove.
#[derive(Debug)]
pub struct DefInfo {
    pub name: String,
    /// "def" or "defmacro", exactly as written in the defining form.
    pub kind: String,
    /// Span of just the defined name.
    pub name_span: Span,
    /// Span of the whole defining form.
    pub form_span: Span,
}

pub struct DefSpec {
    pub name: Seq<char>,
    pub kind: Seq<char>,
    pub name_span: Span,
    pub form_span: Span,
}

impl DefInfo {
    pub open spec fn view(&self) -> DefSpec {
        DefSpec { name: self.name@, kind: self.kind@, name_span: self.name_span, form_span: self.form_span }
    }
}

pub open spec fn def_views(ds: Seq<DefInfo>) -> Seq<DefSpec> {
    Seq::new(ds.len(), |i: int| ds[i]@)
}

/// One document's structural analysis.
#[derive(Debug)]
pub struct Analysis {
    pub defs: Vec<DefInfo>,
}

/// The definition a top-level form proves, if any.
pub open spec fn def_of(x: Syntax) -> Option<DefSpec> {
    match x.datum {
        Datum::List(items) => if items.len() >= 2 {
            match (items[0].datum, items[1].datum) {
                (Datum::Sym(head), Datum::Sym(name)) => if head == "def"@ || head == "defmacro"@ {
                    Some(DefSpec { name, kind: head, name_span: items[1].span, form_span: x.span })
                } else {
                    None
                },
                _ => None,
            }
        } else {
            None
        },
        _ => None,
    }
}

/// The definitions proved by a sequence of top-level forms, in order.
pub open spec fn defs_of(xs: Seq<Syntax>) -> Seq<DefSpec>
    decreases xs.len(),
{
    if xs.len() == 0 {
        Seq::empty()
    } else {
        let rest = defs_of(xs.drop_last());
        match def_of(xs.last()) {
            Some(d) => rest.push(d),
            None => rest,
        }
    }
}

/// What analysing a source text yields.
pub open spec fn spec_analyze(s: Seq<char>) -> Result<Seq<DefSpec>, crate::error::ErrorSpec> {
    match spec_parse(s) {
        Ok(xs) => Ok(defs_of(xs)),
        Err(e) => Err(e),
    }
}

fn def_of_exec(x: &Expr) -> (r: Option<DefInfo>)
    ensures
        match r {
            Some(d) => def_of(x@) == Some(d@),
            None => def_of(x@) is None,
        },
{
    let items = match &x.kind {
        ExprKind::List(items) => items,
        _ => {
            return None;
        },
    };
    proof {
        crate::syntax::lemma_list_view(x, items);
    }
    if items.len() < 2 {
        return None;
    }
    let head = match &items[0].kind {
        ExprKind::Symbol(h) => h,
        _ => {
            return None;
        },
    };
    let name = match &items[1].kind {
        ExprKind::Symbol(n) => n,
        _ => {
            return None;
        },
    };
    assert(views(items@)[0] == items@[0]@);
    assert(views(items@)[1] == items@[1]@);
    if !string_eq(head, "def") && !string_eq(head, "defmacro") {
        return None;
    }
    Some(DefInfo { name: copy_string(name), kind: copy_string(head), name_span: items[1].span, form_span: x.span })
}

fn collect_defs(expressions: &Vec<Expr>) -> (r: Vec<DefInfo>)
    ensures
        def_views(r@) == defs_of(views(expressions@)),
{
    let ghost xs = views(expressions@);
    let mut defs: Vec<DefInfo> = Vec::new();
    let mut i: usize = 0;
    proof {
        assert(xs.take(0) =~= Seq::<Syntax>::empty());
        assert(def_views(defs@) =~= Seq::<DefSpec>::empty());
    }
    while i < expressions.len()
        invariant
            i <= expressions@.len(),
            xs == views(expressions@),
            def_views(defs@) == defs_of(xs.take(i as int)),
        decreases expressions.len() - i,
    {
        proof {
            assert(xs.take(i + 1).drop_last() =~= xs.take(i as int));
            assert(xs.take(i + 1).last() == expressions@[i as int]@);
        }
        match def_of_exec(&expressions[i]) {
            Some(d) => {
                let ghost before = def_views(defs@);
                defs.push(d);
                proof {
                    assert(def_views(defs@) =~= before.push(d@));
                }
            },
            None => {},
        }
        i += 1;
    }
    proof {
        assert(xs.take(expressions@.len() as int) =~= xs);
    }
    defs
}

/// Parses `source` and collects the definitions it proves; a parse failure
/// is returned untouched.
pub fn analyze(source: &str) -> (r: Result<Analysis, LanguageError>)
    ensures
        match r {
            Ok(a) => spec_analyze(source@) == Ok::<Seq<DefSpec>, crate::error::ErrorSpec>(def_views(a.defs@)),
            Err(e) => spec_analyze(source@) == Err::<Seq<DefSpec>, crate::error::ErrorSpec>(e@),
        },
{
    match parse(source) {
        Ok(expressions) => Ok(Analysis { defs: collect_defs(&expressions) }),
        Err(e) => Err(e),
    }
}

// ---------------------------------------------------------------------------
// Symbol occurrences
// ---------------------------------------------------------------------------

/// One occurrence of a symbol in source code.
#[derive(Debug)]
pub struct SymbolOccurrence {
    pub name: String,
    pub span: Span,
}

pub struct OccurrenceSpec {
    pub name: Seq<char>,
    pub span: Span,
}

impl SymbolOccurrence {
    pub open spec fn view(&self) -> OccurrenceSpec {
        OccurrenceSpec { name: self.name@, span: self.span }
    }
}

pub open spec fn occ_views(os: Seq<SymbolOccurrence>) -> Seq<OccurrenceSpec> {
    Seq::new(os.len(), |i: int| os[i]@)
}

pub open spec fn is_quote_head(items: Seq<Syntax>) -> bool {
    items.len() > 0 && items[0].datum == Datum::Sym("quote"@)
}

/// The code references inside `x`; subtrees under `(quote ...)` are data.
pub open spec fn occurrences(x: Syntax, in_quote: bool) -> Seq<OccurrenceSpec>
    decreases x, 0int,
{
    match x.datum {
        Datum::Sym(name) => if in_quote {
            Seq::empty()
        } else {
            seq![OccurrenceSpec { name, span: x.span }]
        },
        Datum::List(items) => occurrences_in(items, items.len() as int, in_quote, is_quote_head(items)),
        Datum::Pair(head, tail) => occurrences(*head, in_quote) + occurrences(*tail, in_quote),
        _ => Seq::empty(),
    }
}

/// The code references inside the first `n` items of a list.
pub open spec fn occurrences_in(items: Seq<Syntax>, n: int, in_quote: bool, quote_head: bool) -> Seq<OccurrenceSpec>
    decreases items, n,
{
    if n <= 0 || n > items.len() {
        Seq::empty()
    } else {
        occurrences_in(items, n - 1, in_quote, quote_head) + occurrences(
            items[n - 1],
            in_quote || (quote_head && n - 1 > 0),
        )
    }
}

pub open spec fn occurrences_all(xs: Seq<Syntax>) -> Seq<OccurrenceSpec>
    decreases xs.len(),
{
    if xs.len() == 0 {
        Seq::empty()
    } else {
        occurrences_all(xs.drop_last()) + occurrences(xs.last(), false)
    }
}

fn walk_symbols(expr: &Expr, in_quote: bool, out: &mut Vec<SymbolOccurrence>)
    ensures
        occ_views(final(out)@) == occ_views(old(out)@) + occurrences(expr@, in_quote),
    decreases expr,
{
    let ghost start = occ_views(out@);
    match &expr.kind {
        ExprKind::Symbol(name) => {
            if !in_quote {
                out.push(SymbolOccurrence { name: copy_string(name), span: expr.span });
                proof {
                    assert(occ_views(out@) =~= start + seq![OccurrenceSpec { name: name@, span: expr.span }]);
                }
            } else {
                proof {
                    assert(start + Seq::<OccurrenceSpec>::empty() =~= start);
                }
            }
        },
        ExprKind::List(items) => {
            proof {
                crate::syntax::lemma_list_view(expr, items);
            }
            let ghost xs = views(items@);
            let head_is_quote = items.len() > 0 && match &items[0].kind {
                ExprKind::Symbol(n) => string_eq(n, "quote"),
                _ => false,
            };
            proof {
                if items.len() > 0 {
                    assert(xs[0] == items@[0]@);
                }
                assert(head_is_quote == is_quote_head(xs));
            }
            let mut i: usize = 0;
            proof {
                assert(start + occurrences_in(xs, 0, in_quote, head_is_quote) =~= start);
            }
            while i < items.len()
                invariant
                    i <= items@.len(),
                    xs == views(items@),
                    expr.kind == ExprKind::List(*items),
                    occ_views(out@) == start + occurrences_in(xs, i as int, in_quote, head_is_quote),
                decreases items.len() - i,
            {
                assert(xs[i as int] == items@[i as int]@);
                proof {
                    assert(expr.kind is List);
                    assert(decreases_to!(*expr => expr.kind));
                    assert(decreases_to!(expr.kind => expr.kind->List_0));
                    assert(decreases_to!(*items => items@));
                    assert(decreases_to!(items@ => items@[i as int]));
                }
                walk_symbols(&items[i], in_quote || (head_is_quote && i > 0), out);
                proof {
                    assert(start + occurrences_in(xs, i + 1, in_quote, head_is_quote) =~= start
                        + occurrences_in(xs, i as int, in_quote, head_is_quote) + occurrences(
                        xs[i as int],
                        in_quote || (head_is_quote && i > 0),
                    ));
                }
                i += 1;
            }
        },
        ExprKind::Pair(head, tail) => {
            walk_symbols(head, in_quote, out);
            walk_symbols(tail, in_quote, out);
            proof {
                assert(start + occurrences(head@, in_quote) + occurrences(tail@, in_quote) =~= start
                    + (occurrences(head@, in_quote) + occurrences(tail@, in_quote)));
            }
        },
        _ => {
            proof {
                assert(start + Seq::<OccurrenceSpec>::empty() =~= start);
            }
        },
    }
}

/// Every symbol occurrence of `source` that is a code reference.
pub fn symbol_occurrences(source: &str) -> (r: Result<Vec<SymbolOccurrence>, LanguageError>)
    ensures
        match r {
            Ok(v) => spec_parse(source@) matches Ok(xs) && occ_views(v@) == occurrences_all(xs),
            Err(e) => spec_parse(source@) == Err::<Seq<Syntax>, crate::error::ErrorSpec>(e@),
        },
{
    let expressions = match parse(source) {
        Ok(e) => e,
        Err(e) => {
            return Err(e);
        },
    };
    let ghost xs = views(expressions@);
    let mut out: Vec<SymbolOccurrence> = Vec::new();
    let mut i: usize = 0;
    proof {
        assert(occ_views(out@) =~= Seq::<OccurrenceSpec>::empty());
        assert(xs.take(0) =~= Seq::<Syntax>::empty());
    }
    while i < expressions.len()
        invariant
            i <= expressions@.len(),
            xs == views(expressions@),
            occ_views(out@) == occurrences_all(xs.take(i as int)),
        decreases expressions.len() - i,
    {
        walk_symbols(&expressions[i], false, &mut out);
        proof {
            assert(xs.take(i + 1).drop_last() =~= xs.take(i as int));
            assert(xs.take(i + 1).last() == expressions@[i as int]@);
        }
        i += 1;
    }
    proof {
        assert(xs.take(expressions@.len() as int) =~= xs);
    }
    Ok(out)
}

// ---------------------------------------------------------------------------
// Lookups by position and name
// ---------------------------------------------------------------------------

pub open spec fn contains_offset(span: Span, offset: int) -> bool {
    span.start <= offset < span.end
}

/// The innermost symbol containing `offset` inside `x`.
pub open spec fn symbol_at_spec(x: Syntax, offset: int) -> Option<(Seq<char>, Span)>
    decreases x, 0int,
{
    if !contains_offset(x.span, offset) {
        None
    } else {
        match x.datum {
            Datum::Sym(name) => Some((name, x.span)),
            Datum::List(items) => symbol_at_in(items, items.len() as int, offset),
            Datum::Pair(head, tail) => match symbol_at_spec(*head, offset) {
                Some(r) => Some(r),
                None => symbol_at_spec(*tail, offset),
            },
            _ => None,
        }
    }
}

/// The first hit among the first `n` items.
pub open spec fn symbol_at_in(items: Seq<Syntax>, n: int, offset: int) -> Option<(Seq<char>, Span)>
    decreases items, n,
{
    if n <= 0 || n > items.len() {
        None
    } else {
        match symbol_at_in(items, n - 1, offset) {
            Some(r) => Some(r),
            None => symbol_at_spec(items[n - 1], offset),
        }
    }
}

pub open spec fn symbol_at_all(xs: Seq<Syntax>, offset: int) -> Option<(Seq<char>, Span)>
    decreases xs.len(),
{
    if xs.len() == 0 {
        None
    } else {
        match symbol_at_all(xs.drop_last(), offset) {
            Some(r) => Some(r),
            None => symbol_at_spec(xs.last(), offset),
        }
    }
}

proof fn lemma_symbol_at_in_prefix(items: Seq<Syntax>, k: int, n: int, offset: int)
    requires
        0 < k <= n <= items.len(),
        symbol_at_in(items, k, offset) is Some,
    ensures
        symbol_at_in(items, n, offset) == symbol_at_in(items, k, offset),
    decreases n - k,
{
    if n > k {
        lemma_symbol_at_in_prefix(items, k, n - 1, offset);
    }
}

fn walk_at(expr: &Expr, offset: usize) -> (r: Option<(String, Span)>)
    ensures
        match r {
            Some((name, span)) => symbol_at_spec(expr@, offset as int) == Some((name@, span)),
            None => symbol_at_spec(expr@, offset as int) is None,
        },
    decreases expr,
{
    if !(expr.span.start <= offset && offset < expr.span.end) {
        return None;
    }
    match &expr.kind {
        ExprKind::Symbol(name) => Some((copy_string(name), expr.span)),
        ExprKind::List(items) => {
            proof {
                crate::syntax::lemma_list_view(expr, items);
            }
            let ghost xs = views(items@);
            let mut i: usize = 0;
            while i < items.len()
                invariant
                    i <= items@.len(),
                    xs == views(items@),
                    expr.kind == ExprKind::List(*items),
                    expr@.datum == Datum::List(xs),
                    contains_offset(expr.span, offset as int),
                    symbol_at_in(xs, i as int, offset as int) is None,
                decreases items.len() - i,
            {
                assert(xs[i as int] == items@[i as int]@);
                proof {
                    assert(expr.kind is List);
                    assert(decreases_to!(*expr => expr.kind));
                    assert(decreases_to!(expr.kind => expr.kind->List_0));
                    assert(decreases_to!(*items => items@));
                    assert(decreases_to!(items@ => items@[i as int]));
                }
                match walk_at(&items[i], offset) {
                    Some(found) => {
                        proof {
                            assert(symbol_at_in(xs, i + 1, offset as int) == symbol_at_spec(xs[i as int], offset as int));
                            assert(symbol_at_spec(expr@, offset as int) == symbol_at_in(xs, xs.len() as int, offset as int));
                            lemma_symbol_at_in_prefix(xs, i + 1, xs.len() as int, offset as int);
                        }
                        return Some(found);
                    },
                    None => {},
                }
                i += 1;
            }
            None
        },
        ExprKind::Pair(head, tail) => match walk_at(head, offset) {
            Some(found) => Some(found),
            None => walk_at(tail, offset),
        },
        _ => None,
    }
}

/// The first top-level span containing `offset`.
pub open spec fn top_level_at_spec(xs: Seq<Syntax>, offset: int) -> Option<Span>
    decreases xs.len(),
{
    if xs.len() == 0 {
        None
    } else {
        match top_level_at_spec(xs.drop_last(), offset) {
            Some(s) => Some(s),
            None => if contains_offset(xs.last().span, offset) {
                Some(xs.last().span)
            } else {
                None
            },
        }
    }
}

/// The last definition named `name`.
pub open spec fn lookup_spec(defs: Seq<DefSpec>, name: Seq<char>) -> Option<int>
    decreases defs.len(),
{
    if defs.len() == 0 {
        None
    } else if defs.last().name == name {
        Some(defs.len() - 1)
    } else {
        lookup_spec(defs.drop_last(), name)
    }
}

impl Analysis {
    /// The span of the top-level expression containing `offset`.
    pub fn top_level_at(&self, source: &str, offset: usize) -> (r: Option<Span>)
        ensures
            r == (match spec_parse(source@) {
                Ok(xs) => top_level_at_spec(xs, offset as int),
                Err(_) => None,
            }),
    {
        let exprs = match parse(source) {
            Ok(e) => e,
            Err(_) => {
                return None;
            },
        };
        let ghost xs = views(exprs@);
        let mut i: usize = 0;
        proof {
            assert(xs.take(0) =~= Seq::<Syntax>::empty());
        }
        while i < exprs.len()
            invariant
                i <= exprs@.len(),
                xs == views(exprs@),
                spec_parse(source@) == Ok::<Seq<Syntax>, crate::error::ErrorSpec>(xs),
                top_level_at_spec(xs.take(i as int), offset as int) is None,
            decreases exprs.len() - i,
        {
            proof {
                assert(xs.take(i + 1).drop_last() =~= xs.take(i as int));
                assert(xs.take(i + 1).last() == exprs@[i as int]@);
                lemma_top_level_prefix(xs, i + 1, offset as int);
            }
            let span = exprs[i].span;
            if span.start <= offset && offset < span.end {
                proof {
                    assert(xs[i as int].span == span);
                    lemma_top_level_some(xs, i + 1, offset as int);
                }
                return Some(span);
            }
            i += 1;
        }
        proof {
            assert(xs.take(exprs@.len() as int) =~= xs);
        }
        None
    }

    /// The last definition named `name` (later definitions shadow earlier ones).
    pub fn lookup(&self, name: &str) -> (r: Option<&DefInfo>)
        ensures
            match r {
                Some(d) => lookup_spec(def_views(self.defs@), name@) matches Some(k) && d@
                    == def_views(self.defs@)[k],
                None => lookup_spec(def_views(self.defs@), name@) is None,
            },
    {
        let ghost ds = def_views(self.defs@);
        let mut i = self.defs.len();
        proof {
            assert(ds.take(i as int) =~= ds);
        }
        while i > 0
            invariant
                i <= self.defs@.len(),
                ds == def_views(self.defs@),
                lookup_spec(ds, name@) == lookup_spec(ds.take(i as int), name@),
            decreases i,
        {
            proof {
                assert(ds.take(i as int).drop_last() =~= ds.take(i - 1));
                assert(ds.take(i as int).last() == self.defs@[i - 1]@);
            }
            if string_eq(&self.defs[i - 1].name, name) {
                return Some(&self.defs[i - 1]);
            }
            i -= 1;
        }
        None
    }

    /// The innermost symbol containing `offset`, found by walking the parse tree.
    pub fn symbol_at(&self, source: &str, offset: usize) -> (r: Option<(String, Span)>)
        ensures
            match r {
                Some((n, s)) => spec_parse(source@) matches Ok(xs) && symbol_at_all(xs, offset as int)
                    == Some((n@, s)),
                None => match spec_parse(source@) {
                    Ok(xs) => symbol_at_all(xs, offset as int) is None,
                    Err(_) => true,
                },
            },
    {
        symbol_at_source(source, offset)
    }
}

proof fn lemma_top_level_some(xs: Seq<Syntax>, k: int, offset: int)
    requires
        0 < k <= xs.len(),
        top_level_at_spec(xs.take(k), offset) is Some,
    ensures
        top_level_at_spec(xs, offset) == top_level_at_spec(xs.take(k), offset),
    decreases xs.len() - k,
{
    if k < xs.len() {
        assert(xs.take(k + 1).drop_last() =~= xs.take(k));
        lemma_top_level_some(xs, k + 1, offset);
    } else {
        assert(xs.take(k) =~= xs);
    }
}

proof fn lemma_top_level_prefix(xs: Seq<Syntax>, k: int, offset: int)
    requires
        0 < k <= xs.len(),
    ensures
        top_level_at_spec(xs.take(k), offset) == (match top_level_at_spec(xs.take(k - 1), offset) {
            Some(s) => Some(s),
            None => if contains_offset(xs[k - 1].span, offset) {
                Some(xs[k - 1].span)
            } else {
                None
            },
        }),
{
    assert(xs.take(k).drop_last() =~= xs.take(k - 1));
}

/// The innermost symbol of `source` containing `offset`.
pub fn symbol_at_source(source: &str, offset: usize) -> (r: Option<(String, Span)>)
    ensures
        match r {
            Some((n, s)) => spec_parse(source@) matches Ok(xs) && symbol_at_all(xs, offset as int)
                == Some((n@, s)),
            None => match spec_parse(source@) {
                Ok(xs) => symbol_at_all(xs, offset as int) is None,
                Err(_) => true,
            },
        },
{
    let exprs = match parse(source) {
        Ok(e) => e,
        Err(_) => {
            return None;
        },
    };
    let ghost xs = views(exprs@);
    let mut i: usize = 0;
    proof {
        assert(xs.take(0) =~= Seq::<Syntax>::empty());
    }
    while i < exprs.len()
        invariant
            i <= exprs@.len(),
            xs == views(exprs@),
            spec_parse(source@) == Ok::<Seq<Syntax>, crate::error::ErrorSpec>(xs),
            symbol_at_all(xs.take(i as int), offset as int) is None,
        decreases exprs.len() - i,
    {
        proof {
            assert(xs.take(i + 1).drop_last() =~= xs.take(i as int));
            assert(xs.take(i + 1).last() == exprs@[i as int]@);
        }
        match walk_at(&exprs[i], offset) {
            Some(found) => {
                proof {
                    assert(xs[i as int] == exprs@[i as int]@);
                    assert(symbol_at_all(xs.take(i + 1), offset as int) == symbol_at_spec(xs[i as int], offset as int));
                    lemma_symbol_at_prefix(xs, i + 1, offset as int);
                }
                return Some(found);
            },
            None => {},
        }
        i += 1;
    }
    proof {
        assert(xs.take(exprs@.len() as int) =~= xs);
    }
    None
}

proof fn lemma_symbol_at_prefix(xs: Seq<Syntax>, k: int, offset: int)
    requires
        0 < k <= xs.len(),
        symbol_at_all(xs.take(k), offset) is Some,
    ensures
        symbol_at_all(xs, offset) == symbol_at_all(xs.take(k), offset),
    decreases xs.len() - k,
{
    if k < xs.len() {
        assert(xs.take(k + 1).drop_last() =~= xs.take(k));
        lemma_symbol_at_prefix(xs, k + 1, offset);
    } else {
        assert(xs.take(k) =~= xs);
    }
}


// ---------------------------------------------------------------------------
// Position mapping: byte offsets <-> (line, UTF-16 column)
// ---------------------------------------------------------------------------

/// Number of UTF-16 code units encoding `c`.
pub open spec fn utf16_len(c: char) -> nat {
    if (c as u32) < 0x10000 {
        1
    } else {
        2
    }
}

/// (line, UTF-16 column), both 0-based, just after the characters `p`.
pub open spec fn position_of(p: Seq<char>) -> (nat, nat)
    decreases p.len(),
{
    if p.len() == 0 {
        (0, 0)
    } else {
        let (l, c) = position_of(p.drop_last());
        if p.last() == '\n' {
            (l + 1, 0)
        } else {
            (l, c + utf16_len(p.last()))
        }
    }
}

/// The last character boundary (as a character index) at or before byte `off`.
pub open spec fn floor_index(s: Seq<char>, off: int, i: int) -> int
    decreases s.len() - i,
{
    if 0 <= i < s.len() && byte_offset(s, i + 1) <= off {
        floor_index(s, off, i + 1)
    } else {
        i
    }
}

/// The first character boundary (as a character index) at or after byte `off`.
pub open spec fn ceil_index(s: Seq<char>, off: int) -> int {
    crate::error::char_index_at(s, off, 0)
}

/// Character index where line `line` starts, scanning from `i` with `cur`
/// newlines already seen.
pub open spec fn line_start_from(s: Seq<char>, line: nat, i: int, cur: nat) -> Option<int>
    decreases s.len() - i,
{
    if cur == line {
        Some(i)
    } else if i < 0 || i >= s.len() {
        None
    } else if s[i] == '\n' {
        line_start_from(s, line, i + 1, cur + 1)
    } else {
        line_start_from(s, line, i + 1, cur)
    }
}

/// Character index reached after `character` UTF-16 units of the line that
/// continues at `i` (clamped to the line's end).
pub open spec fn column_scan(s: Seq<char>, i: int, character: nat, seen: nat) -> int
    decreases s.len() - i,
{
    if i < 0 || i >= s.len() {
        s.len() as int
    } else if s[i] == '\n' || seen >= character {
        i
    } else if seen + utf16_len(s[i]) >= character {
        i + 1
    } else {
        column_scan(s, i + 1, character, seen + utf16_len(s[i]))
    }
}

pub open spec fn position_to_offset_spec(s: Seq<char>, line: nat, character: nat) -> nat {
    match line_start_from(s, line, 0, 0) {
        None => utf8_len(s),
        Some(start) => byte_offset(s, column_scan(s, start, character, 0)),
    }
}

proof fn lemma_position_bounds(p: Seq<char>)
    ensures
        position_of(p).0 <= utf8_len(p),
        position_of(p).1 <= utf8_len(p),
    decreases p.len(),
{
    if p.len() > 0 {
        lemma_position_bounds(p.drop_last());
        assert(p =~= p.drop_last().push(p.last()));
        crate::text::lemma_utf8_len_push(p.drop_last(), p.last());
    }
}

fn utf16_len_exec(c: char) -> (n: u32)
    ensures
        n == utf16_len(c),
{
    if (c as u32) < 0x10000 {
        1
    } else {
        2
    }
}

proof fn lemma_floor_bounds(s: Seq<char>, off: int, i: int)
    requires
        0 <= i <= s.len(),
    ensures
        i <= floor_index(s, off, i) <= s.len(),
    decreases s.len() - i,
{
    if i < s.len() && byte_offset(s, i + 1) <= off {
        lemma_floor_bounds(s, off, i + 1);
    }
}

/// The character index of the last boundary at or before byte `offset`,
/// with its byte offset.
pub(crate) fn floor_boundary(chars: &Vec<char>, offset: usize) -> (r: (usize, usize))
    requires
        utf8_len(chars@) <= usize::MAX,
    ensures
        r.0 == floor_index(chars@, offset as int, 0),
        r.1 == byte_offset(chars@, r.0 as int),
        r.0 <= chars@.len(),
{
    let mut i: usize = 0;
    let mut b: usize = 0;
    proof {
        assert(chars@.take(0) =~= Seq::<char>::empty());
        lemma_floor_bounds(chars@, offset as int, 0);
    }
    loop
        invariant
            i <= chars@.len(),
            b == byte_offset(chars@, i as int),
            utf8_len(chars@) <= usize::MAX,
            floor_index(chars@, offset as int, i as int) == floor_index(chars@, offset as int, 0),
        decreases chars@.len() - i,
    {
        if i >= chars.len() {
            return (i, b);
        }
        proof {
            lemma_byte_offset_step(chars@, i as int);
            lemma_byte_offset_monotone(chars@, i + 1, i + 1);
        }
        let next = b + char_width_exec(chars[i]);
        if next > offset {
            return (i, b);
        }
        i = i + 1;
        b = next;
    }
}

/// Byte offset to (line, UTF-16 column); offsets inside a character or past
/// the end clamp to the preceding boundary.
pub fn offset_to_position(source: &str, offset: usize) -> (r: (u32, u32))
    requires
        utf8_len(source@) <= u32::MAX,
    ensures
        r.0 as nat == position_of(source@.take(floor_index(source@, offset as int, 0))).0,
        r.1 as nat == position_of(source@.take(floor_index(source@, offset as int, 0))).1,
{
    let chars = chars_of(source);
    let (k, _) = floor_boundary(&chars, offset);
    let mut line: u32 = 0;
    let mut character: u32 = 0;
    let mut i: usize = 0;
    proof {
        assert(chars@.take(0) =~= Seq::<char>::empty());
    }
    while i < k
        invariant
            i <= k <= chars@.len(),
            utf8_len(chars@) <= u32::MAX,
            line as nat == position_of(chars@.take(i as int)).0,
            character as nat == position_of(chars@.take(i as int)).1,
        decreases k - i,
    {
        let c = chars[i];
        proof {
            assert(chars@.take(i + 1).drop_last() =~= chars@.take(i as int));
            lemma_position_bounds(chars@.take(i + 1));
            crate::text::lemma_byte_offset_monotone(chars@, i + 1, chars@.len() as int);
        }
        if c == '\n' {
            line = line + 1;
            character = 0;
        } else {
            character = character + utf16_len_exec(c);
        }
        i += 1;
    }
    (line, character)
}

/// (line, UTF-16 column) to byte offset; out-of-range positions clamp to the
/// end of the line or of the text.
pub fn position_to_offset(source: &str, line: u32, character: u32) -> (r: usize)
    ensures
        r as nat == position_to_offset_spec(source@, line as nat, character as nat),
{
    let chars = chars_of(source);
    proof {
        crate::text::lemma_byte_offset_monotone(chars@, chars@.len() as int, chars@.len() as int);
        assert(chars@.take(chars@.len() as int) =~= chars@);
    }
    // find the start of the requested line
    let mut i: usize = 0;
    let mut b: usize = 0;
    let mut cur: u64 = 0;
    proof {
        assert(chars@.take(0) =~= Seq::<char>::empty());
    }
    while cur < line as u64
        invariant
            i <= chars@.len(),
            b == byte_offset(chars@, i as int),
            utf8_len(chars@) <= usize::MAX,
            chars@ == source@,
            byte_offset(chars@, chars@.len() as int) == utf8_len(chars@),
            cur <= line,
            line_start_from(chars@, line as nat, i as int, cur as nat) == line_start_from(
                chars@,
                line as nat,
                0,
                0,
            ),
        decreases chars@.len() - i,
    {
        if i >= chars.len() {
            return b;
        }
        proof {
            lemma_byte_offset_step(chars@, i as int);
            lemma_byte_offset_monotone(chars@, i + 1, i + 1);
        }
        if chars[i] == '\n' {
            cur = cur + 1;
        }
        b = b + char_width_exec(chars[i]);
        i = i + 1;
    }
    // scan the line for the requested column
    let mut seen: u64 = 0;
    let ghost start = i as int;
    loop
        invariant
            start <= i <= chars@.len(),
            b == byte_offset(chars@, i as int),
            utf8_len(chars@) <= usize::MAX,
            chars@ == source@,
            line_start_from(chars@, line as nat, 0, 0) == Some(start),
            seen < character || i == start,
            seen <= 2 * (i - start),
            column_scan(chars@, i as int, character as nat, seen as nat) == column_scan(
                chars@,
                start,
                character as nat,
                0,
            ),
        decreases chars@.len() - i,
    {
        if i >= chars.len() {
            return b;
        }
        let c = chars[i];
        if c == '\n' || seen >= character as u64 {
            return b;
        }
        proof {
            lemma_byte_offset_step(chars@, i as int);
            lemma_byte_offset_monotone(chars@, i + 1, i + 1);
        }
        seen = seen + utf16_len_exec(c) as u64;
        b = b + char_width_exec(c);
        i = i + 1;
        if seen >= character as u64 {
            return b;
        }
    }
}

/// The characters of `s` covered by the byte range `span`, widened outward
/// to character boundaries.
pub open spec fn span_text_spec(s: Seq<char>, span: Span) -> Seq<char> {
    s.subrange(
        floor_index(s, span.start as int, 0),
        ceil_index(
            s,
            if span.end as int >= byte_offset(s, floor_index(s, span.start as int, 0)) {
                span.end as int
            } else {
                byte_offset(s, floor_index(s, span.start as int, 0)) as int
            },
        ),
    )
}

/// The source text covered by `span`, widened outward to character boundaries.
pub fn span_text(source: &str, span: Span) -> (r: String)
    ensures
        r@ == span_text_spec(source@, span),
{
    let chars = chars_of(source);
    let (a, ab) = floor_boundary(&chars, span.start);
    let target = if span.end >= ab { span.end } else { ab };
    let mut e = a;
    let mut eb = ab;
    proof {
        assert forall|k: int| 0 <= k < a implies byte_offset(chars@, k) < target by {
            crate::text::lemma_byte_offset_strict(chars@, k, a as int);
        }
        lemma_ceil_from(chars@, target as int, 0, a as int);
    }
    while e < chars.len() && eb < target
        invariant
            a <= e <= chars@.len(),
            eb == byte_offset(chars@, e as int),
            utf8_len(chars@) <= usize::MAX,
            crate::error::char_index_at(chars@, target as int, e as int) == ceil_index(chars@, target as int),
        decreases chars@.len() - e,
    {
        proof {
            lemma_byte_offset_step(chars@, e as int);
            lemma_byte_offset_monotone(chars@, e + 1, e + 1);
        }
        eb = eb + char_width_exec(chars[e]);
        e = e + 1;
    }
    string_from_chars(&chars, a, e)
}

/// Scanning for a boundary from any index not past the target gives the
/// same answer as scanning from the start.
proof fn lemma_ceil_from(s: Seq<char>, b: int, i: int, j: int)
    requires
        0 <= i <= j <= s.len(),
        forall|k: int| i <= k < j ==> byte_offset(s, k) < b,
    ensures
        crate::error::char_index_at(s, b, i) == crate::error::char_index_at(s, b, j),
    decreases j - i,
{
    if i < j {
        lemma_ceil_from(s, b, i + 1, j);
    }
}

/// Static documentation for core builtins, by name.
pub open spec fn builtin_docs_spec(name: Seq<char>) -> Option<Seq<char>> {
    if name == "+"@ {
        Some("Sum of all arguments"@)
    } else if name == "-"@ {
        Some("Difference (binary/subtract or unary/negate)"@)
    } else if name == "*"@ {
        Some("Product of all arguments"@)
    } else if name == "/"@ {
        Some("Exact rational division"@)
    } else if name == "<"@ {
        Some("Less-than chain comparison"@)
    } else if name == ">"@ {
        Some("Greater-than chain comparison"@)
    } else if name == "="@ {
        Some("Numeric equality (value-based, not type-based)"@)
    } else if name == "atom"@ {
        Some("(atom x) → t if x is not a Pair"@)
    } else if name == "car"@ {
        Some("(car pair) → first element of a pair/list"@)
    } else if name == "cdr"@ {
        Some("(cdr pair) → rest of a pair/list after first"@)
    } else if name == "cons"@ {
        Some("(cons head tail) → new Pair(head, tail)"@)
    } else if name == "eq"@ {
        Some("(eq a b) → structural/identity equality"@)
    } else if name == "env"@ {
        Some("(env) → all visible bindings as alist"@)
    } else if name == "abs"@ {
        Some("(abs x) → absolute value (exact or inexact)"@)
    } else if name == "min"@ {
        Some("(min a b ...) → smallest argument"@)
    } else if name == "max"@ {
        Some("(max a b ...) → largest argument"@)
    } else if name == "min-list"@ {
        Some("(min-list lst) → minimum element of list"@)
    } else if name == "max-list"@ {
        Some("(max-list lst) → maximum element of list"@)
    } else if name == "make-vector"@ {
        Some("(make-vector n) → vector of n nil slots"@)
    } else if name == "vector"@ {
        Some("(vector a b ...) → vector with given elements"@)
    } else if name == "vector-length"@ {
        Some("(vector-length v) → number of elements"@)
    } else if name == "vector-ref"@ {
        Some("(vector-ref v i) → element at index i"@)
    } else if name == "vector-set!"@ {
        Some("(vector-set! v i val) → mutate slot i"@)
    } else if name == "print"@ {
        Some("(print x) → output x followed by newline"@)
    } else if name == "princ"@ {
        Some("(princ x) → output x without newline"@)
    } else if name == "read"@ {
        Some("(read) → read one s-expression from stdin"@)
    } else if name == "read-all"@ {
        Some("(read-all) → read all expressions from stdin"@)
    } else if name == "read-file"@ {
        Some("(read-file path) → file content as string (capability)"@)
    } else if name == "write-file"@ {
        Some("(write-file path data) → write to file (capability)"@)
    } else if name == "eval"@ {
        Some("(eval expr) → evaluate expression"@)
    } else if name == "quote"@ {
        Some("(quote x) → return x unevaluated"@)
    } else if name == "cond"@ {
        Some("(cond (test result)...) → first matching clause"@)
    } else if name == "lambda"@ {
        Some("(lambda (params) body) → anonymous function"@)
    } else if name == "def"@ {
        Some("(def name value) → bind name in current scope"@)
    } else if name == "defmacro"@ {
        Some("(defmacro name (params) body) → compile-time macro"@)
    } else if name == "json-parse"@ {
        Some("(json-parse str) → parse JSON to my-lisp values"@)
    } else if name == "sha256-hex"@ {
        Some("(sha256-hex str) → SHA-256 hex digest"@)
    } else if name == "string-append"@ {
        Some("(string-append a b ...) → concatenated strings"@)
    } else if name == "string<?"@ {
        Some("(string<? a b) → lexicographic less-than"@)
    } else if name == "string?"@ {
        Some("(string? x) → t if x is a string"@)
    } else if name == "symbol->string"@ {
        Some("(symbol->string sym) → string form of symbol"@)
    } else if name == "string->symbol"@ {
        Some("(string->symbol str) → symbol from string"@)
    } else {
        None
    }
}

/// Static documentation for core builtins; used by hover when a symbol
/// is not defined locally.
pub fn builtin_docs(name: &str) -> (r: Option<&'static str>)
    ensures
        match r {
            Some(d) => builtin_docs_spec(name@) == Some(d@),
            None => builtin_docs_spec(name@) is None,
        },
{
    if str_eq(name, "+") {
        Some("Sum of all arguments")
    } else if str_eq(name, "-") {
        Some("Difference (binary/subtract or unary/negate)")
    } else if str_eq(name, "*") {
        Some("Product of all arguments")
    } else if str_eq(name, "/") {
        Some("Exact rational division")
    } else if str_eq(name, "<") {
        Some("Less-than chain comparison")
    } else if str_eq(name, ">") {
        Some("Greater-than chain comparison")
    } else if str_eq(name, "=") {
        Some("Numeric equality (value-based, not type-based)")
    } else if str_eq(name, "atom") {
        Some("(atom x) → t if x is not a Pair")
    } else if str_eq(name, "car") {
        Some("(car pair) → first element of a pair/list")
    } else if str_eq(name, "cdr") {
        Some("(cdr pair) → rest of a pair/list after first")
    } else if str_eq(name, "cons") {
        Some("(cons head tail) → new Pair(head, tail)")
    } else if str_eq(name, "eq") {
        Some("(eq a b) → structural/identity equality")
    } else if str_eq(name, "env") {
        Some("(env) → all visible bindings as alist")
    } else if str_eq(name, "abs") {
        Some("(abs x) → absolute value (exact or inexact)")
    } else if str_eq(name, "min") {
        Some("(min a b ...) → smallest argument")
    } else if str_eq(name, "max") {
        Some("(max a b ...) → largest argument")
    } else if str_eq(name, "min-list") {
        Some("(min-list lst) → minimum element of list")
    } else if str_eq(name, "max-list") {
        Some("(max-list lst) → maximum element of list")
    } else if str_eq(name, "make-vector") {
        Some("(make-vector n) → vector of n nil slots")
    } else if str_eq(name, "vector") {
        Some("(vector a b ...) → vector with given elements")
    } else if str_eq(name, "vector-length") {
        Some("(vector-length v) → number of elements")
    } else if str_eq(name, "vector-ref") {
        Some("(vector-ref v i) → element at index i")
    } else if str_eq(name, "vector-set!") {
        Some("(vector-set! v i val) → mutate slot i")
    } else if str_eq(name, "print") {
        Some("(print x) → output x followed by newline")
    } else if str_eq(name, "princ") {
        Some("(princ x) → output x without newline")
    } else if str_eq(name, "read") {
        Some("(read) → read one s-expression from stdin")
    } else if str_eq(name, "read-all") {
        Some("(read-all) → read all expressions from stdin")
    } else if str_eq(name, "read-file") {
        Some("(read-file path) → file content as string (capability)")
    } else if str_eq(name, "write-file") {
        Some("(write-file path data) → write to file (capability)")
    } else if str_eq(name, "eval") {
        Some("(eval expr) → evaluate expression")
    } else if str_eq(name, "quote") {
        Some("(quote x) → return x unevaluated")
    } else if str_eq(name, "cond") {
        Some("(cond (test result)...) → first matching clause")
    } else if str_eq(name, "lambda") {
        Some("(lambda (params) body) → anonymous function")
    } else if str_eq(name, "def") {
        Some("(def name value) → bind name in current scope")
    } else if str_eq(name, "defmacro") {
        Some("(defmacro name (params) body) → compile-time macro")
    } else if str_eq(name, "json-parse") {
        Some("(json-parse str) → parse JSON to my-lisp values")
    } else if str_eq(name, "sha256-hex") {
        Some("(sha256-hex str) → SHA-256 hex digest")
    } else if str_eq(name, "string-append") {
        Some("(string-append a b ...) → concatenated strings")
    } else if str_eq(name, "string<?") {
        Some("(string<? a b) → lexicographic less-than")
    } else if str_eq(name, "string?") {
        Some("(string? x) → t if x is a string")
    } else if str_eq(name, "symbol->string") {
        Some("(symbol->string sym) → string form of symbol")
    } else if str_eq(name, "string->symbol") {
        Some("(string->symbol str) → symbol from string")
    } else {
        None
    }
}

} // verus!

verus! {

/// How many line breaks `p` holds.
pub open spec fn newlines(p: Seq<char>) -> nat
    decreases p.len(),
{
    if p.len() == 0 {
        0
    } else {
        newlines(p.drop_last()) + if p.last() == '\n' {
            1nat
        } else {
            0nat
        }
    }
}

/// Where the last line of `p` starts: just after its last line break.
pub open spec fn last_line_start(p: Seq<char>) -> int
    decreases p.len(),
{
    if p.len() == 0 {
        0
    } else if p.last() == '\n' {
        p.len() as int
    } else {
        last_line_start(p.drop_last())
    }
}

/// UTF-16 units of `s[a..b]`.
pub open spec fn units(s: Seq<char>, a: int, b: int) -> nat
    decreases b - a,
{
    if b <= a {
        0
    } else {
        units(s, a, b - 1) + utf16_len(s[b - 1])
    }
}

proof fn lemma_units_positive(s: Seq<char>, a: int, b: int)
    requires
        a < b,
    ensures
        units(s, a, b) >= 1,
        units(s, a, b) == units(s, a, b - 1) + utf16_len(s[b - 1]),
{
}

proof fn lemma_units_split(s: Seq<char>, a: int, j: int, b: int)
    requires
        a <= j <= b,
    ensures
        units(s, a, b) == units(s, a, j) + units(s, j, b),
    decreases b - j,
{
    if j < b {
        lemma_units_split(s, a, j, b - 1);
    }
}

/// The shape of a prefix `s[..k]`: where its last line starts, and its
/// position is (line breaks, UTF-16 units since that start).
proof fn lemma_prefix_shape(s: Seq<char>, k: int)
    requires
        0 <= k <= s.len(),
    ensures
        0 <= last_line_start(s.take(k)) <= k,
        position_of(s.take(k)).0 == newlines(s.take(k)),
        position_of(s.take(k)).1 == units(s, last_line_start(s.take(k)), k),
        forall|j: int| last_line_start(s.take(k)) <= j < k ==> s[j] != '\n',
        newlines(s.take(k)) == newlines(s.take(last_line_start(s.take(k)))),
        last_line_start(s.take(k)) > 0 ==> s[last_line_start(s.take(k)) - 1] == '\n',
    decreases k,
{
    if k > 0 {
        lemma_prefix_shape(s, k - 1);
        let p = s.take(k);
        assert(p.drop_last() =~= s.take(k - 1));
        assert(p.last() == s[k - 1]);
        if s[k - 1] == '\n' {
            assert(s.take(last_line_start(p)) =~= p);
        } else {
            let m = last_line_start(s.take(k - 1));
            lemma_units_positive(s, m, k);
        }
    } else {
        assert(s.take(0) =~= Seq::<char>::empty());
    }
}

proof fn lemma_newlines_monotone(s: Seq<char>, i: int, j: int)
    requires
        0 <= i <= j <= s.len(),
    ensures
        newlines(s.take(i)) <= newlines(s.take(j)),
    decreases j - i,
{
    if i < j {
        lemma_newlines_monotone(s, i, j - 1);
        assert(s.take(j).drop_last() =~= s.take(j - 1));
    }
}

/// Scanning for line `l` from index `i` finds the start `m` of that line.
proof fn lemma_line_start_found(s: Seq<char>, l: nat, m: int, i: int)
    requires
        0 <= i <= m <= s.len(),
        newlines(s.take(m)) == l,
        m > 0 ==> s[m - 1] == '\n',
    ensures
        line_start_from(s, l, i, newlines(s.take(i))) == Some(m),
    decreases m - i,
{
    if i < m {
        lemma_newlines_monotone(s, i, m - 1);
        assert(s.take(m).drop_last() =~= s.take(m - 1));
        assert(newlines(s.take(i)) < l);
        assert(s.take(i + 1).drop_last() =~= s.take(i));
        assert(s.take(i + 1).last() == s[i]);
        lemma_line_start_found(s, l, m, i + 1);
    }
}

/// Scanning a line from `j` with the units seen so far stops exactly at
/// `k` when the units up to `k` are asked for.
proof fn lemma_column_found(s: Seq<char>, m: int, j: int, k: int)
    requires
        0 <= m <= j <= k <= s.len(),
        forall|x: int| m <= x < k ==> s[x] != '\n',
    ensures
        column_scan(s, j, units(s, m, k), units(s, m, j)) == k,
    decreases k - j,
{
    if j < k {
        lemma_units_split(s, m, j, k);
        lemma_units_positive(s, j, k);
        lemma_units_split(s, m, j + 1, k);
        lemma_units_split(s, j, j + 1, k);
        assert(units(s, m, j + 1) == units(s, m, j) + utf16_len(s[j]));
        if j + 1 < k {
            lemma_units_positive(s, j + 1, k);
            lemma_column_found(s, m, j + 1, k);
        }
    }
}

proof fn lemma_floor_at_boundary(s: Seq<char>, k: int, i: int)
    requires
        0 <= i <= k <= s.len(),
    ensures
        floor_index(s, byte_offset(s, k) as int, i) == k,
    decreases s.len() - i,
{
    if i < k {
        crate::text::lemma_byte_offset_monotone(s, i + 1, k);
        lemma_floor_at_boundary(s, k, i + 1);
    } else if k < s.len() {
        crate::text::lemma_byte_offset_strict(s, k, k + 1);
    }
}

/// Converting a character boundary to a (line, UTF-16 column) position and
/// back gives the same byte offset.
pub proof fn law_position_round_trip(s: Seq<char>, k: int)
    requires
        0 <= k <= s.len(),
    ensures
        floor_index(s, byte_offset(s, k) as int, 0) == k,
        position_to_offset_spec(s, position_of(s.take(k)).0, position_of(s.take(k)).1) == byte_offset(s, k),
{
    lemma_floor_at_boundary(s, k, 0);
    lemma_prefix_shape(s, k);
    let m = last_line_start(s.take(k));
    let l = newlines(s.take(k));
    assert(s.take(0) =~= Seq::<char>::empty());
    lemma_line_start_found(s, l, m, 0);
    lemma_column_found(s, m, m, k);
}

/// Law: looking up a name finds its last definition: the found definition
/// has the name and no later one does; nothing is found exactly when no
/// definition has the name.
pub proof fn law_lookup_finds_last_definition(defs: Seq<DefSpec>, name: Seq<char>)
    ensures
        lookup_spec(defs, name) matches Some(k) ==> 0 <= k < defs.len() && defs[k].name == name && (
        forall|j: int| k < j < defs.len() ==> #[trigger] defs[j].name != name),
        lookup_spec(defs, name) is None <==> (forall|j: int| 0 <= j < defs.len() ==> #[trigger] defs[j].name != name),
    decreases defs.len(),
{
    if defs.len() > 0 {
        let d = defs.drop_last();
        law_lookup_finds_last_definition(d, name);
        assert forall|j: int| 0 <= j < d.len() implies d[j] == defs[j] by {}
        if defs.last().name != name {
            if lookup_spec(d, name) is None {
                assert forall|j: int| 0 <= j < defs.len() implies #[trigger] defs[j].name != name by {
                    if j < d.len() {
                        assert(d[j].name != name);
                    }
                }
            }
        }
    }
}

} // verus!
