//! Reader output: expressions with the byte spans they were read from.
use vstd::prelude::*;
use crate::rational::Rational;

verus! {

/// Byte range in the UTF-8 source text an expression was read from.
#[derive(Clone, Copy, Debug, PartialEq, Eq)]
pub struct Span {
    pub start: usize,
    pub end: usize,
}

/// Whether a numeric value is a precise quantity or an approximation.
/// Every literal the reader produces is exact.
#[derive(Clone, Copy, Debug, PartialEq, Eq)]
pub enum Exactness {
    Exact,
    Inexact,
}

/// A literal numeric buffer: `#i32(...)` holds signed 32-bit integers,
/// `#f32(...)` holds the exact values written for its binary32 elements.
#[derive(Debug)]
pub enum NumericBuffer {
    I32(Vec<i32>),
    F32(Vec<Rational>),
}

/// The shape of one read expression.
#[derive(Debug)]
pub enum ExprKind {
    /// An exact integer within the range a 64-bit float holds exactly (±2^53).
    Number(i64),
    /// Any other exact number.
    Rational(Rational),
    NumericBuffer(NumericBuffer),
    String(String),
    Symbol(String),
    List(Vec<Expr>),
    /// A reader-level dotted pair `(a . b)`.
    Pair(Box<Expr>, Box<Expr>),
}

#[derive(Debug)]
pub struct Expr {
    pub kind: ExprKind,
    pub span: Span,
}

/// The mathematical content of an expression.
pub enum Datum {
    Number(int),
    Rational(int, int),
    I32(Seq<i32>),
    F32(Seq<(int, int)>),
    Str(Seq<char>),
    Sym(Seq<char>),
    List(Seq<Syntax>),
    Pair(Box<Syntax>, Box<Syntax>),
}

/// A read expression as a mathematical value: its datum and its span.
pub struct Syntax {
    pub datum: Datum,
    pub span: Span,
}

impl NumericBuffer {
    pub open spec fn view(&self) -> Datum {
        match self {
            NumericBuffer::I32(v) => Datum::I32(v@),
            NumericBuffer::F32(v) => Datum::F32(
                Seq::new(v@.len(), |i: int| if 0 <= i < v@.len() { v@[i].view() } else { (0, 1) }),
            ),
        }
    }
}

impl Expr {
    pub open spec fn view(&self) -> Syntax
        decreases self,
    {
        Syntax {
            span: self.span,
            datum: match &self.kind {
                ExprKind::Number(n) => Datum::Number(*n as int),
                ExprKind::Rational(r) => Datum::Rational(r.view().0, r.view().1),
                ExprKind::NumericBuffer(b) => b.view(),
                ExprKind::String(s) => Datum::Str(s@),
                ExprKind::Symbol(s) => Datum::Sym(s@),
                ExprKind::List(items) => Datum::List(
                    Seq::new(
                        items@.len(),
                        |i: int|
                            if 0 <= i < items@.len() {
                                items@[i].view()
                            } else {
                                Syntax { datum: Datum::Number(0), span: self.span }
                            },
                    ),
                ),
                ExprKind::Pair(head, tail) => Datum::Pair(
                    Box::new(head.view()),
                    Box::new(tail.view()),
                ),
            },
        }
    }
}

/// The views of a vector of expressions.
pub open spec fn views(items: Seq<Expr>) -> Seq<Syntax> {
    Seq::new(items.len(), |i: int| items[i].view())
}

pub proof fn lemma_list_view(e: &Expr, items: &Vec<Expr>)
    requires
        e.kind == ExprKind::List(*items),
    ensures
        e.view().datum == Datum::List(views(items@)),
{
    let d = e.view().datum;
    assert(d is List);
    let xs = d->List_0;
    assert(xs.len() == items@.len());
    assert forall|i: int| 0 <= i < xs.len() implies xs[i] == views(items@)[i] by {
        assert(xs[i] == items@[i].view());
    }
    assert(xs =~= views(items@));
}

/// The symbol name of an expression, if it is a symbol.
pub fn as_symbol(expr: &Expr) -> (r: Option<&String>)
    ensures
        r matches Some(s) ==> expr.view().datum == Datum::Sym(s@),
        r is None ==> !(expr.view().datum is Sym),
{
    match &expr.kind {
        ExprKind::Symbol(s) => Some(s),
        _ => None,
    }
}

/// The items of an expression, if it is a list.
pub fn as_list(expr: &Expr) -> (r: Option<&Vec<Expr>>)
    ensures
        r matches Some(items) ==> expr.view().datum == Datum::List(views(items@)),
        r is None ==> !(expr.view().datum is List),
{
    match &expr.kind {
        ExprKind::List(items) => {
            proof {
                lemma_list_view(expr, items);
            }
            Some(items)
        },
        _ => None,
    }
}


impl Expr {
    /// A deep copy.
    pub fn duplicate(&self) -> (r: Expr)
        ensures
            r.view() == self.view(),
        decreases self,
    {
        let kind = match &self.kind {
            ExprKind::Number(n) => ExprKind::Number(*n),
            ExprKind::Rational(q) => ExprKind::Rational(q.duplicate()),
            ExprKind::NumericBuffer(NumericBuffer::I32(v)) => {
                let mut out: Vec<i32> = Vec::new();
                let mut i: usize = 0;
                while i < v.len()
                    invariant
                        i <= v@.len(),
                        out@ == v@.take(i as int),
                    decreases v.len() - i,
                {
                    out.push(v[i]);
                    proof {
                        assert(v@.take(i + 1) =~= v@.take(i as int).push(v@[i as int]));
                    }
                    i += 1;
                }
                proof {
                    assert(v@.take(v@.len() as int) =~= v@);
                }
                ExprKind::NumericBuffer(NumericBuffer::I32(out))
            },
            ExprKind::NumericBuffer(NumericBuffer::F32(v)) => {
                let mut out: Vec<Rational> = Vec::new();
                let mut i: usize = 0;
                while i < v.len()
                    invariant
                        i <= v@.len(),
                        out@.len() == i,
                        forall|j: int| 0 <= j < i ==> (#[trigger] out@[j]).view() == v@[j].view(),
                    decreases v.len() - i,
                {
                    out.push(v[i].duplicate());
                    i += 1;
                }
                let copy = NumericBuffer::F32(out);
                proof {
                    assert(copy.view()->F32_0 =~= NumericBuffer::F32(*v).view()->F32_0);
                }
                ExprKind::NumericBuffer(copy)
            },
            ExprKind::String(t) => ExprKind::String(crate::text::copy_string(t)),
            ExprKind::Symbol(t) => ExprKind::Symbol(crate::text::copy_string(t)),
            ExprKind::List(items) => {
                let mut out: Vec<Expr> = Vec::new();
                let mut i: usize = 0;
                while i < items.len()
                    invariant
                        i <= items@.len(),
                        self.kind == ExprKind::List(*items),
                        views(out@) == views(items@).take(i as int),
                    decreases items.len() - i,
                {
                    proof {
                        assert(decreases_to!(self => self.kind));
                        assert(self.kind->List_0 == *items);
                        assert(decreases_to!(self.kind => self.kind->List_0));
                        assert(decreases_to!(*items => items@));
                        assert(decreases_to!(items@ => items@[i as int]));
                        assert(decreases_to!(self => items@[i as int]));
                    }
                    let d = items[i].duplicate();
                    let ghost before = out@;
                    out.push(d);
                    proof {
                        assert(views(out@) =~= views(before).push(d.view()));
                        assert(views(items@).take(i + 1) =~= views(items@).take(i as int).push(items@[i as int].view()));
                    }
                    i += 1;
                }
                proof {
                    assert(views(items@).take(items@.len() as int) =~= views(items@));
                }
                ExprKind::List(out)
            },
            ExprKind::Pair(h, t) => ExprKind::Pair(Box::new(h.duplicate()), Box::new(t.duplicate())),
        };
        let r = Expr { kind, span: self.span };
        proof {
            match &self.kind {
                ExprKind::List(items) => {
                    lemma_list_view(self, items);
                    match &r.kind {
                        ExprKind::List(out) => {
                            lemma_list_view(&r, out);
                        },
                        _ => {},
                    }
                },
                ExprKind::NumericBuffer(NumericBuffer::F32(v)) => {
                    match &r.kind {
                        ExprKind::NumericBuffer(NumericBuffer::F32(out)) => {
                            assert(NumericBuffer::F32(*out).view() =~= NumericBuffer::F32(*v).view());
                        },
                        _ => {},
                    }
                },
                _ => {},
            }
        }
        r
    }
}

} // verus!
