//! Lambda lists in the three shapes of the Lisp family: `(a b)`, fixed
//! parameters only; `(a b . rest)`, fixed parameters and a rest parameter
//! bound to every further argument; and a bare symbol `args`, no fixed
//! parameters and everything bound to `args`. No name may occur twice.
use vstd::prelude::*;
use crate::error::{ErrorKind, ErrorSpec, LanguageError};
use crate::syntax::{lemma_list_view, views, Datum, Expr, ExprKind, Span, Syntax};
use crate::text::{copy_string, owned, push_str, string_eq};

verus! {

pub open spec fn not_symbol_message() -> Seq<char> {
    "lambda parameter must be a symbol · параметр lambda має бути символом · lambda-Parameter muss ein Symbol sein"@
}

pub open spec fn duplicate_message(name: Seq<char>) -> Seq<char> {
    "duplicate lambda parameter · повторний параметр lambda · doppelter lambda-Parameter: "@ + name
}

pub open spec fn rest_message() -> Seq<char> {
    "rest parameter must be a symbol · rest-параметр має бути символом · Rest-Parameter muss ein Symbol sein"@
}

pub open spec fn shape_message() -> Seq<char> {
    "lambda parameters must be a list, dotted list, or symbol · параметри lambda мають бути списком, dotted-списком або символом · lambda-Parameter müssen eine Liste, Dotted-Liste oder ein Symbol sein"@
}

pub open spec fn invalid(message: Seq<char>, span: Span) -> ErrorSpec {
    ErrorSpec { kind: ErrorKind::InvalidForm, message, span }
}

/// The fixed parameters of list items from `i` on, after the names `seen`.
pub open spec fn list_params(items: Seq<Syntax>, i: int, seen: Seq<Seq<char>>) -> Result<Seq<Seq<char>>, ErrorSpec>
    decreases items.len() - i,
{
    if i < 0 || i >= items.len() {
        Ok(seen)
    } else {
        match items[i].datum {
            Datum::Sym(name) => if seen.contains(name) {
                Err(invalid(duplicate_message(name), items[i].span))
            } else {
                list_params(items, i + 1, seen.push(name))
            },
            _ => Err(invalid(not_symbol_message(), items[i].span)),
        }
    }
}

/// The parameters of a dotted chain after the names `seen`: the fixed
/// ones and the rest parameter that ends it.
pub open spec fn chain_params(s: Syntax, seen: Seq<Seq<char>>) -> Result<(Seq<Seq<char>>, Seq<char>), ErrorSpec>
    decreases s,
{
    match s.datum {
        Datum::Pair(head, tail) => match head.datum {
            Datum::Sym(name) => if seen.contains(name) {
                Err(invalid(duplicate_message(name), head.span))
            } else {
                chain_params(*tail, seen.push(name))
            },
            _ => Err(invalid(not_symbol_message(), head.span)),
        },
        Datum::Sym(name) => if seen.contains(name) {
            Err(invalid(duplicate_message(name), s.span))
        } else {
            Ok((seen, name))
        },
        _ => Err(invalid(rest_message(), s.span)),
    }
}

/// The fixed parameters and the rest parameter a lambda list declares.
pub open spec fn lambda_list(s: Syntax) -> Result<(Seq<Seq<char>>, Option<Seq<char>>), ErrorSpec> {
    match s.datum {
        Datum::Sym(name) => Ok((Seq::empty(), Some(name))),
        Datum::List(items) => match list_params(items, 0, Seq::empty()) {
            Ok(ps) => Ok((ps, None)),
            Err(e) => Err(e),
        },
        Datum::Pair(_, _) => match chain_params(s, Seq::empty()) {
            Ok((ps, rest)) => Ok((ps, Some(rest))),
            Err(e) => Err(e),
        },
        _ => Err(invalid(shape_message(), s.span)),
    }
}

pub open spec fn names_of(v: Seq<String>) -> Seq<Seq<char>> {
    Seq::new(v.len(), |i: int| v[i]@)
}

fn contains_name(names: &Vec<String>, name: &String) -> (r: bool)
    ensures
        r == names_of(names@).contains(name@),
{
    let mut i: usize = 0;
    while i < names.len()
        invariant
            i <= names@.len(),
            forall|k: int| 0 <= k < i ==> names@[k]@ != name@,
        decreases names.len() - i,
    {
        if string_eq(&names[i], name.as_str()) {
            proof {
                assert(names_of(names@)[i as int] == name@);
            }
            return true;
        }
        i += 1;
    }
    proof {
        if names_of(names@).contains(name@) {
            let k = choose|k: int| 0 <= k < names_of(names@).len() && names_of(names@)[k] == name@;
            assert(names@[k]@ == name@);
        }
    }
    false
}

fn duplicate_error(name: &String, span: Span) -> (r: LanguageError)
    ensures
        r@ == invalid(duplicate_message(name@), span),
{
    let mut msg = owned("duplicate lambda parameter · повторний параметр lambda · doppelter lambda-Parameter: ");
    push_str(&mut msg, name.as_str());
    LanguageError::new(ErrorKind::InvalidForm, msg, span)
}

fn not_symbol_error(span: Span) -> (r: LanguageError)
    ensures
        r@ == invalid(not_symbol_message(), span),
{
    LanguageError::new(
        ErrorKind::InvalidForm,
        owned("lambda parameter must be a symbol · параметр lambda має бути символом · lambda-Parameter muss ein Symbol sein"),
        span,
    )
}

fn push_name(names: &mut Vec<String>, name: &String)
    ensures
        names_of(final(names)@) == names_of(old(names)@).push(name@),
{
    names.push(copy_string(name));
    proof {
        assert(names_of(names@) =~= names_of(old(names)@).push(name@));
    }
}

/// Walks a dotted chain, collecting fixed parameters into `names`.
fn chain_exec(expr: &Expr, names: &mut Vec<String>) -> (r: Result<String, LanguageError>)
    ensures
        match chain_params(expr.view(), names_of(old(names)@)) {
            Ok((ps, rest)) => r matches Ok(s) && s@ == rest && names_of(final(names)@) == ps,
            Err(e) => r matches Err(err) && err@ == e,
        },
    decreases expr,
{
    match &expr.kind {
        ExprKind::Pair(head, tail) => {
            proof {
                assert(expr.view().datum == Datum::Pair(Box::new(head.view()), Box::new(tail.view())));
            }
            match &head.kind {
                ExprKind::Symbol(name) => {
                    proof {
                        assert(head.view().datum == Datum::Sym(name@));
                    }
                    if contains_name(names, name) {
                        return Err(duplicate_error(name, head.span));
                    }
                    push_name(names, name);
                    chain_exec(tail, names)
                },
                _ => {
                    proof {
                        assert(!(head.view().datum is Sym));
                    }
                    Err(not_symbol_error(head.span))
                },
            }
        },
        ExprKind::Symbol(name) => {
            proof {
                assert(expr.view().datum == Datum::Sym(name@));
            }
            if contains_name(names, name) {
                return Err(duplicate_error(name, expr.span));
            }
            Ok(copy_string(name))
        },
        _ => Err(
            LanguageError::new(
                ErrorKind::InvalidForm,
                owned("rest parameter must be a symbol · rest-параметр має бути символом · Rest-Parameter muss ein Symbol sein"),
                expr.span,
            ),
        ),
    }
}

/// The fixed parameter names and the rest parameter of a lambda list, or
/// the first malformation: a non-symbol parameter, a name declared twice, a
/// rest position holding a non-symbol, or a list of another shape.
pub fn parse_lambda_list(expr: &Expr) -> (r: Result<(Vec<String>, Option<String>), LanguageError>)
    ensures
        match lambda_list(expr.view()) {
            Ok((ps, rest)) => r matches Ok((v, o)) && names_of(v@) == ps && match o {
                Some(s) => rest == Some(s@),
                None => rest is None,
            },
            Err(e) => r matches Err(err) && err@ == e,
        },
{
    match &expr.kind {
        ExprKind::Symbol(name) => {
            let v: Vec<String> = Vec::new();
            proof {
                assert(names_of(v@) =~= Seq::<Seq<char>>::empty());
            }
            Ok((v, Some(copy_string(name))))
        },
        ExprKind::List(items) => {
            proof {
                lemma_list_view(expr, items);
            }
            let ghost xs = views(items@);
            let mut names: Vec<String> = Vec::new();
            let mut i: usize = 0;
            proof {
                assert(names_of(names@) =~= Seq::<Seq<char>>::empty());
            }
            while i < items.len()
                invariant
                    i <= items@.len(),
                    xs == views(items@),
                    expr.view().datum == Datum::List(xs),
                    list_params(xs, 0, Seq::empty()) == list_params(xs, i as int, names_of(names@)),
                decreases items.len() - i,
            {
                let item = &items[i];
                proof {
                    assert(xs[i as int] == item.view());
                }
                match &item.kind {
                    ExprKind::Symbol(name) => {
                        proof {
                            assert(item.view().datum == Datum::Sym(name@));
                        }
                        if contains_name(&names, name) {
                            return Err(duplicate_error(name, item.span));
                        }
                        push_name(&mut names, name);
                    },
                    _ => {
                        proof {
                            assert(!(item.view().datum is Sym));
                        }
                        return Err(not_symbol_error(item.span));
                    },
                }
                i += 1;
            }
            proof {
                assert(list_params(xs, i as int, names_of(names@)) == Ok::<Seq<Seq<char>>, ErrorSpec>(names_of(names@)));
            }
            Ok((names, None))
        },
        ExprKind::Pair(head, tail) => {
            proof {
                assert(expr.view().datum == Datum::Pair(Box::new(head.view()), Box::new(tail.view())));
            }
            let mut names: Vec<String> = Vec::new();
            proof {
                assert(names_of(names@) =~= Seq::<Seq<char>>::empty());
            }
            match chain_exec(expr, &mut names) {
                Ok(rest) => Ok((names, Some(rest))),
                Err(e) => Err(e),
            }
        },
        _ => Err(
            LanguageError::new(
                ErrorKind::InvalidForm,
                owned("lambda parameters must be a list, dotted list, or symbol · параметри lambda мають бути списком, dotted-списком або символом · lambda-Parameter müssen eine Liste, Dotted-Liste oder ein Symbol sein"),
                expr.span,
            ),
        ),
    }
}

} // verus!

verus! {

pub open spec fn distinct(ns: Seq<Seq<char>>) -> bool {
    forall|i: int, j: int| 0 <= i < j < ns.len() ==> ns[i] != ns[j]
}

proof fn lemma_push_distinct(seen: Seq<Seq<char>>, name: Seq<char>)
    requires
        distinct(seen),
        !seen.contains(name),
    ensures
        distinct(seen.push(name)),
{
    let s = seen.push(name);
    assert forall|i: int, j: int| 0 <= i < j < s.len() implies s[i] != s[j] by {
        if j == seen.len() {
            assert(seen[i] == s[i]);
        }
    }
}

proof fn lemma_list_params_distinct(items: Seq<Syntax>, i: int, seen: Seq<Seq<char>>)
    requires
        distinct(seen),
    ensures
        list_params(items, i, seen) matches Ok(ps) ==> distinct(ps),
    decreases items.len() - i,
{
    if 0 <= i < items.len() {
        match items[i].datum {
            Datum::Sym(name) => {
                if !seen.contains(name) {
                    lemma_push_distinct(seen, name);
                    lemma_list_params_distinct(items, i + 1, seen.push(name));
                }
            },
            _ => {},
        }
    }
}

proof fn lemma_chain_params_distinct(s: Syntax, seen: Seq<Seq<char>>)
    requires
        distinct(seen),
    ensures
        chain_params(s, seen) matches Ok((ps, rest)) ==> distinct(ps) && !ps.contains(rest),
    decreases s,
{
    match s.datum {
        Datum::Pair(head, tail) => match head.datum {
            Datum::Sym(name) => {
                if !seen.contains(name) {
                    lemma_push_distinct(seen, name);
                    lemma_chain_params_distinct(*tail, seen.push(name));
                }
            },
            _ => {},
        },
        _ => {},
    }
}

/// A lambda list never binds a name twice: the fixed parameters are
/// distinct and the rest parameter is none of them.
pub proof fn law_lambda_list_distinct(s: Syntax)
    ensures
        lambda_list(s) matches Ok((ps, rest)) ==> distinct(ps) && match rest {
            Some(r) => !ps.contains(r),
            None => true,
        },
{
    match s.datum {
        Datum::List(items) => lemma_list_params_distinct(items, 0, Seq::empty()),
        Datum::Pair(_, _) => lemma_chain_params_distinct(s, Seq::empty()),
        _ => {},
    }
}

} // verus!
