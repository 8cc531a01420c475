//! Guard knowledge for the language server, read from the guard reference
//! directory and the guard function library with the canonical reader.
//!
//! The reference directory is a top-level
//! `(def *guard-reference-directory* (quote ((reference (field value ...) ...) ...)))`
//! form; the function library is a sequence of `(def name (lambda (params) ...))`
//! forms. Both are walked as parse trees: nothing here is matched as text.
use vstd::prelude::*;
use crate::analysis::span_text;
use crate::language_items::{Arity, LanguageItemKind};
use crate::reader::{parse, spec_parse};
use crate::syntax::{views, Datum, Expr, ExprKind, Span, Syntax};
use crate::text::{copy_string, str_eq};

verus! {

// ---------------------------------------------------------------------------
// Values
// ---------------------------------------------------------------------------

/// One entry of the reference directory.
#[derive(Debug)]
pub struct GuardReference {
    pub topic: String,
    pub summary: String,
    pub authority: Vec<String>,
    pub how_to: Vec<String>,
    pub verify: Vec<String>,
    pub lifecycle: String,
    pub provenance: String,
    pub unknown_route: String,
}

pub struct ReferenceSpec {
    pub topic: Seq<char>,
    pub summary: Seq<char>,
    pub authority: Seq<Seq<char>>,
    pub how_to: Seq<Seq<char>>,
    pub verify: Seq<Seq<char>>,
    pub lifecycle: Seq<char>,
    pub provenance: Seq<char>,
    pub unknown_route: Seq<char>,
}

pub open spec fn texts(v: Seq<String>) -> Seq<Seq<char>> {
    Seq::new(v.len(), |i: int| v[i]@)
}

impl GuardReference {
    pub open spec fn view(&self) -> ReferenceSpec {
        ReferenceSpec {
            topic: self.topic@,
            summary: self.summary@,
            authority: texts(self.authority@),
            how_to: texts(self.how_to@),
            verify: texts(self.verify@),
            lifecycle: self.lifecycle@,
            provenance: self.provenance@,
            unknown_route: self.unknown_route@,
        }
    }
}

/// One function of the guard library: its name, spans and lambda arity.
#[derive(Debug)]
pub struct GuardFunction {
    pub name: String,
    pub name_span: Span,
    pub form_span: Span,
    pub arity: usize,
}

pub struct FunctionSpec {
    pub name: Seq<char>,
    pub name_span: Span,
    pub form_span: Span,
    pub arity: nat,
}

impl GuardFunction {
    pub open spec fn view(&self) -> FunctionSpec {
        FunctionSpec {
            name: self.name@,
            name_span: self.name_span,
            form_span: self.form_span,
            arity: self.arity as nat,
        }
    }
}

/// Reference entries keyed by topic; no topic occurs twice.
#[derive(Debug)]
pub struct TopicMap {
    entries: Vec<GuardReference>,
}

/// Guard functions keyed by name; no name occurs twice.
#[derive(Debug)]
pub struct FunctionMap {
    entries: Vec<GuardFunction>,
}

impl TopicMap {
    pub closed spec fn view(&self) -> Seq<ReferenceSpec> {
        Seq::new(self.entries@.len(), |i: int| self.entries@[i]@)
    }

    /// Number of topics.
    pub fn len(&self) -> (r: usize)
        ensures
            r == self@.len(),
    {
        self.entries.len()
    }

    /// Whether there are no topics.
    pub fn is_empty(&self) -> (r: bool)
        ensures
            r == (self@.len() == 0),
    {
        self.entries.len() == 0
    }

    /// The entry of `topic`.
    pub fn get(&self, topic: &str) -> (r: Option<&GuardReference>)
        ensures
            match r {
                Some(e) => exists|k: int| 0 <= k < self@.len() && self@[k] == e@ && e@.topic == topic@,
                None => forall|k: int| 0 <= k < self@.len() ==> self@[k].topic != topic@,
            },
    {
        let mut i: usize = 0;
        while i < self.entries.len()
            invariant
                i <= self.entries@.len(),
                forall|k: int| 0 <= k < i ==> self@[k].topic != topic@,
            decreases self.entries.len() - i,
        {
            if crate::text::string_eq(&self.entries[i].topic, topic) {
                proof {
                    assert(self@[i as int] == self.entries@[i as int]@);
                }
                return Some(&self.entries[i]);
            }
            i += 1;
        }
        None
    }

    /// Whether `topic` has an entry.
    pub fn contains_key(&self, topic: &str) -> (r: bool)
        ensures
            r == exists|k: int| 0 <= k < self@.len() && self@[k].topic == topic@,
    {
        match self.get(topic) {
            Some(_) => true,
            None => false,
        }
    }
}

impl FunctionMap {
    pub closed spec fn view(&self) -> Seq<FunctionSpec> {
        Seq::new(self.entries@.len(), |i: int| self.entries@[i]@)
    }

    /// Number of functions.
    pub fn len(&self) -> (r: usize)
        ensures
            r == self@.len(),
    {
        self.entries.len()
    }

    /// Whether there are no functions.
    pub fn is_empty(&self) -> (r: bool)
        ensures
            r == (self@.len() == 0),
    {
        self.entries.len() == 0
    }

    /// The function named `name`.
    pub fn get(&self, name: &str) -> (r: Option<&GuardFunction>)
        ensures
            match r {
                Some(e) => exists|k: int| 0 <= k < self@.len() && self@[k] == e@ && e@.name == name@,
                None => forall|k: int| 0 <= k < self@.len() ==> self@[k].name != name@,
            },
    {
        let mut i: usize = 0;
        while i < self.entries.len()
            invariant
                i <= self.entries@.len(),
                forall|k: int| 0 <= k < i ==> self@[k].name != name@,
            decreases self.entries.len() - i,
        {
            if crate::text::string_eq(&self.entries[i].name, name) {
                proof {
                    assert(self@[i as int] == self.entries@[i as int]@);
                }
                return Some(&self.entries[i]);
            }
            i += 1;
        }
        None
    }

    /// Whether a function named `name` exists.
    pub fn contains_key(&self, name: &str) -> (r: bool)
        ensures
            r == exists|k: int| 0 <= k < self@.len() && self@[k].name == name@,
    {
        match self.get(name) {
            Some(_) => true,
            None => false,
        }
    }
}

// ---------------------------------------------------------------------------
// Specification of the extraction
// ---------------------------------------------------------------------------

/// The text of a symbol or string expression.
pub open spec fn atom_text(x: Syntax) -> Option<Seq<char>> {
    match x.datum {
        Datum::Sym(s) => Some(s),
        Datum::Str(s) => Some(s),
        _ => None,
    }
}

/// The texts of the symbol and string items of a list, in order.
pub open spec fn atom_texts(items: Seq<Syntax>) -> Seq<Seq<char>>
    decreases items.len(),
{
    if items.len() == 0 {
        Seq::empty()
    } else {
        atom_texts(items.drop_last()) + match atom_text(items.last()) {
            Some(t) => seq![t],
            None => Seq::empty(),
        }
    }
}

/// The texts gathered from the list values of a field, in order.
pub open spec fn list_texts(values: Seq<Syntax>) -> Seq<Seq<char>>
    decreases values.len(),
{
    if values.len() == 0 {
        Seq::empty()
    } else {
        list_texts(values.drop_last()) + match values.last().datum {
            Datum::List(items) => atom_texts(items),
            _ => Seq::empty(),
        }
    }
}

pub open spec fn empty_reference() -> ReferenceSpec {
    ReferenceSpec {
        topic: Seq::empty(),
        summary: Seq::empty(),
        authority: Seq::empty(),
        how_to: Seq::empty(),
        verify: Seq::empty(),
        lifecycle: Seq::empty(),
        provenance: Seq::empty(),
        unknown_route: Seq::empty(),
    }
}

/// The text of a field's first value.
pub open spec fn first_text(values: Seq<Syntax>) -> Option<Seq<char>> {
    if values.len() >= 1 {
        atom_text(values[0])
    } else {
        None
    }
}

/// `r` with the field `field` set from `values`.
pub open spec fn with_field(r: ReferenceSpec, field: Seq<char>, values: Seq<Syntax>) -> ReferenceSpec {
    if field == "topic"@ {
        match first_text(values) {
            Some(v) => ReferenceSpec { topic: v, ..r },
            None => r,
        }
    } else if field == "summary"@ {
        match first_text(values) {
            Some(v) => ReferenceSpec { summary: v, ..r },
            None => r,
        }
    } else if field == "authority"@ {
        ReferenceSpec { authority: list_texts(values), ..r }
    } else if field == "how-to"@ {
        ReferenceSpec { how_to: list_texts(values), ..r }
    } else if field == "verify"@ {
        ReferenceSpec { verify: list_texts(values), ..r }
    } else if field == "lifecycle"@ {
        match first_text(values) {
            Some(v) => ReferenceSpec { lifecycle: v, ..r },
            None => r,
        }
    } else if field == "provenance"@ {
        match first_text(values) {
            Some(v) => ReferenceSpec { provenance: v, ..r },
            None => r,
        }
    } else if field == "unknown-route"@ {
        match first_text(values) {
            Some(v) => ReferenceSpec { unknown_route: v, ..r },
            None => r,
        }
    } else {
        r
    }
}

/// `r` updated by one `(field value ...)` item; other items change nothing.
pub open spec fn apply_item(r: ReferenceSpec, item: Syntax) -> ReferenceSpec {
    match item.datum {
        Datum::List(l) => if l.len() >= 1 {
            match atom_text(l[0]) {
                Some(field) => with_field(r, field, l.subrange(1, l.len() as int)),
                None => r,
            }
        } else {
            r
        },
        _ => r,
    }
}

/// The entry the field items describe, applied in order.
pub open spec fn reference_of(items: Seq<Syntax>) -> ReferenceSpec
    decreases items.len(),
{
    if items.len() == 0 {
        empty_reference()
    } else {
        apply_item(reference_of(items.drop_last()), items.last())
    }
}

/// `m` with entry `r` set by its topic: replaced where known, else appended.
pub open spec fn put_reference(m: Seq<ReferenceSpec>, r: ReferenceSpec) -> Seq<ReferenceSpec> {
    if exists|k: int| 0 <= k < m.len() && m[k].topic == r.topic {
        let k = choose|k: int| 0 <= k < m.len() && m[k].topic == r.topic;
        m.update(k, r)
    } else {
        m.push(r)
    }
}

/// `m` after one entry of the directory: a `(reference ...)` list with a
/// non-empty topic is recorded; anything else is skipped.
pub open spec fn add_entry(m: Seq<ReferenceSpec>, entry: Syntax) -> Seq<ReferenceSpec> {
    match entry.datum {
        Datum::List(fields) => if fields.len() >= 1 && atom_text(fields[0]) == Some("reference"@) {
            let r = reference_of(fields.subrange(1, fields.len() as int));
            if r.topic.len() > 0 {
                put_reference(m, r)
            } else {
                m
            }
        } else {
            m
        },
        _ => m,
    }
}

pub open spec fn add_entries(m: Seq<ReferenceSpec>, data: Seq<Syntax>) -> Seq<ReferenceSpec>
    decreases data.len(),
{
    if data.len() == 0 {
        m
    } else {
        add_entry(add_entries(m, data.drop_last()), data.last())
    }
}

/// The entries listed by the directory form `x`, if it is one, added to `m`.
pub open spec fn add_directory(m: Seq<ReferenceSpec>, x: Syntax) -> Seq<ReferenceSpec> {
    match x.datum {
        Datum::List(l) => if l.len() >= 3 && atom_text(l[0]) == Some("def"@) && atom_text(l[1])
            == Some("*guard-reference-directory*"@) {
            match l[2].datum {
                Datum::List(v) => if v.len() >= 2 && atom_text(v[0]) == Some("quote"@) {
                    match v[1].datum {
                        Datum::List(data) => add_entries(m, data),
                        _ => m,
                    }
                } else {
                    m
                },
                _ => m,
            }
        } else {
            m
        },
        _ => m,
    }
}

pub open spec fn topics_of(xs: Seq<Syntax>) -> Seq<ReferenceSpec>
    decreases xs.len(),
{
    if xs.len() == 0 {
        Seq::empty()
    } else {
        add_directory(topics_of(xs.drop_last()), xs.last())
    }
}

/// The directory text is one the extraction reads without indexing past
/// the end of a list: every top-level list has a head, a `def` list a
/// name, and the value list of the directory form a head.
pub open spec fn directory_readable(xs: Seq<Syntax>) -> bool {
    forall|i: int|
        0 <= i < xs.len() ==> match (#[trigger] xs[i]).datum {
            Datum::List(l) => l.len() >= 1 && (atom_text(l[0]) == Some("def"@) ==> l.len() >= 2 && (
            (atom_text(l[1]) == Some("*guard-reference-directory*"@) && l.len() >= 3) ==> match l[2].datum {
                Datum::List(v) => v.len() >= 1,
                _ => true,
            })),
            _ => true,
        }
}

/// The topics of a reference directory text; nothing where it does not parse.
pub open spec fn spec_topics(s: Seq<char>) -> Seq<ReferenceSpec> {
    match spec_parse(s) {
        Ok(xs) => topics_of(xs),
        Err(_) => Seq::empty(),
    }
}

/// The function a library form defines, if it is `(def name (lambda (params) ...))`.
pub open spec fn function_of(x: Syntax) -> Option<FunctionSpec> {
    match x.datum {
        Datum::List(head) => if head.len() >= 3 && atom_text(head[0]) == Some("def"@) {
            match (head[1].datum, head[2].datum) {
                (Datum::Sym(name), Datum::List(lambda)) => if lambda.len() >= 2 && atom_text(
                    lambda[0],
                ) == Some("lambda"@) {
                    match lambda[1].datum {
                        Datum::List(params) => Some(
                            FunctionSpec {
                                name,
                                name_span: head[1].span,
                                form_span: x.span,
                                arity: params.len(),
                            },
                        ),
                        _ => None,
                    }
                } else {
                    None
                },
                _ => None,
            }
        } else {
            None
        },
        _ => None,
    }
}

/// `m` with function `f` set by its name: replaced where known, else appended.
pub open spec fn put_function(m: Seq<FunctionSpec>, f: FunctionSpec) -> Seq<FunctionSpec> {
    if exists|k: int| 0 <= k < m.len() && m[k].name == f.name {
        let k = choose|k: int| 0 <= k < m.len() && m[k].name == f.name;
        m.update(k, f)
    } else {
        m.push(f)
    }
}

pub open spec fn functions_of(xs: Seq<Syntax>) -> Seq<FunctionSpec>
    decreases xs.len(),
{
    if xs.len() == 0 {
        Seq::empty()
    } else {
        let m = functions_of(xs.drop_last());
        match function_of(xs.last()) {
            Some(f) => put_function(m, f),
            None => m,
        }
    }
}

/// The library text is one the extraction reads without indexing past the
/// end of a list: every top-level list has a head, a `def` list a name,
/// and a list in value position of a `def` of a symbol a head.
pub open spec fn library_readable(xs: Seq<Syntax>) -> bool {
    forall|i: int|
        0 <= i < xs.len() ==> match (#[trigger] xs[i]).datum {
            Datum::List(l) => l.len() >= 1 && (atom_text(l[0]) == Some("def"@) ==> l.len() >= 2 && (
            (l[1].datum is Sym && l.len() >= 3) ==> match l[2].datum {
                Datum::List(v) => v.len() >= 1,
                _ => true,
            })),
            _ => true,
        }
}

/// The functions of a guard library text; nothing where it does not parse.
pub open spec fn spec_functions(s: Seq<char>) -> Seq<FunctionSpec> {
    match spec_parse(s) {
        Ok(xs) => functions_of(xs),
        Err(_) => Seq::empty(),
    }
}

// ---------------------------------------------------------------------------
// Extraction
// ---------------------------------------------------------------------------

/// The text of a symbol or string expression.
fn atom_text_exec(x: &Expr) -> (r: Option<&String>)
    ensures
        match r {
            Some(t) => atom_text(x@) == Some(t@),
            None => atom_text(x@) is None,
        },
{
    match &x.kind {
        ExprKind::Symbol(t) => Some(t),
        ExprKind::String(t) => Some(t),
        _ => None,
    }
}

fn atom_is(x: &Expr, word: &str) -> (r: bool)
    ensures
        r == (atom_text(x@) == Some(word@)),
{
    match atom_text_exec(x) {
        Some(t) => crate::text::string_eq(t, word),
        None => false,
    }
}

fn atom_texts_exec(items: &Vec<Expr>) -> (r: Vec<String>)
    ensures
        texts(r@) == atom_texts(views(items@)),
{
    let ghost xs = views(items@);
    let mut out: Vec<String> = Vec::new();
    let mut i: usize = 0;
    proof {
        assert(xs.take(0) =~= Seq::<Syntax>::empty());
        assert(texts(out@) =~= Seq::<Seq<char>>::empty());
    }
    while i < items.len()
        invariant
            i <= items@.len(),
            xs == views(items@),
            texts(out@) == atom_texts(xs.take(i as int)),
        decreases items.len() - i,
    {
        let ghost before = texts(out@);
        proof {
            let t = xs.take(i + 1);
            assert(t.drop_last() =~= xs.take(i as int));
            assert(t.last() == items@[i as int]@);
        }
        match atom_text_exec(&items[i]) {
            Some(t) => {
                out.push(copy_string(t));
                proof {
                    assert(texts(out@) =~= before + seq![t@]);
                }
            },
            None => {
                proof {
                    assert(texts(out@) =~= before + Seq::<Seq<char>>::empty());
                }
            },
        }
        i += 1;
    }
    proof {
        assert(xs.take(items@.len() as int) =~= xs);
    }
    out
}

fn list_texts_exec(l: &Vec<Expr>, from: usize) -> (r: Vec<String>)
    requires
        from <= l@.len(),
    ensures
        texts(r@) == list_texts(views(l@).subrange(from as int, l@.len() as int)),
{
    let ghost xs = views(l@);
    let mut out: Vec<String> = Vec::new();
    let mut j: usize = from;
    proof {
        assert(xs.subrange(from as int, from as int) =~= Seq::<Syntax>::empty());
        assert(texts(out@) =~= Seq::<Seq<char>>::empty());
    }
    while j < l.len()
        invariant
            from <= j <= l@.len(),
            xs == views(l@),
            texts(out@) == list_texts(xs.subrange(from as int, j as int)),
        decreases l.len() - j,
    {
        let ghost before = texts(out@);
        proof {
            let t = xs.subrange(from as int, j + 1);
            assert(t.drop_last() =~= xs.subrange(from as int, j as int));
            assert(t.last() == l@[j as int]@);
        }
        match crate::syntax::as_list(&l[j]) {
            Some(items) => {
                let found = atom_texts_exec(items);
                let mut k: usize = 0;
                let ghost mid = texts(out@);
                while k < found.len()
                    invariant
                        k <= found@.len(),
                        texts(out@) == mid + texts(found@).take(k as int),
                    decreases found.len() - k,
                {
                    let ghost op = texts(out@);
                    out.push(copy_string(&found[k]));
                    proof {
                        assert(texts(out@) =~= op.push(found@[k as int]@));
                        assert(texts(found@).take(k + 1) =~= texts(found@).take(k as int).push(found@[k as int]@));
                    }
                    k += 1;
                }
                proof {
                    assert(texts(found@).take(found@.len() as int) =~= texts(found@));
                }
            },
            None => {
                proof {
                    assert(texts(out@) =~= before + Seq::<Seq<char>>::empty());
                }
            },
        }
        j += 1;
    }
    out
}

fn empty_reference_exec() -> (r: GuardReference)
    ensures
        r@ == empty_reference(),
{
    let r = GuardReference {
        topic: String::new(),
        summary: String::new(),
        authority: Vec::new(),
        how_to: Vec::new(),
        verify: Vec::new(),
        lifecycle: String::new(),
        provenance: String::new(),
        unknown_route: String::new(),
    };
    proof {
        assert(r@.authority =~= Seq::<Seq<char>>::empty());
        assert(r@.how_to =~= Seq::<Seq<char>>::empty());
        assert(r@.verify =~= Seq::<Seq<char>>::empty());
    }
    r
}

/// The text of the first value of the field list `l`.
fn first_text_exec(l: &Vec<Expr>) -> (r: Option<&String>)
    requires
        l@.len() >= 1,
    ensures
        match r {
            Some(t) => first_text(views(l@).subrange(1, l@.len() as int)) == Some(t@),
            None => first_text(views(l@).subrange(1, l@.len() as int)) is None,
        },
{
    if l.len() >= 2 {
        proof {
            assert(views(l@).subrange(1, l@.len() as int)[0] == l@[1]@);
        }
        atom_text_exec(&l[1])
    } else {
        None
    }
}

/// Applies one `(field value ...)` list to `r`.
fn set_field(r: &mut GuardReference, field: &String, l: &Vec<Expr>)
    requires
        l@.len() >= 1,
    ensures
        final(r)@ == with_field(old(r)@, field@, views(l@).subrange(1, l@.len() as int)),
{
    if string_eq_str(field, "topic") {
        if let Some(v) = first_text_exec(l) {
            r.topic = copy_string(v);
        }
    } else if string_eq_str(field, "summary") {
        if let Some(v) = first_text_exec(l) {
            r.summary = copy_string(v);
        }
    } else if string_eq_str(field, "authority") {
        r.authority = list_texts_exec(l, 1);
    } else if string_eq_str(field, "how-to") {
        r.how_to = list_texts_exec(l, 1);
    } else if string_eq_str(field, "verify") {
        r.verify = list_texts_exec(l, 1);
    } else if string_eq_str(field, "lifecycle") {
        if let Some(v) = first_text_exec(l) {
            r.lifecycle = copy_string(v);
        }
    } else if string_eq_str(field, "provenance") {
        if let Some(v) = first_text_exec(l) {
            r.provenance = copy_string(v);
        }
    } else if string_eq_str(field, "unknown-route") {
        if let Some(v) = first_text_exec(l) {
            r.unknown_route = copy_string(v);
        }
    }
}

fn string_eq_str(a: &String, b: &str) -> (r: bool)
    ensures
        r == (a@ == b@),
{
    crate::text::string_eq(a, b)
}

fn apply_item_exec(r: &mut GuardReference, item: &Expr)
    ensures
        final(r)@ == apply_item(old(r)@, item@),
{
    match crate::syntax::as_list(item) {
        Some(l) => {
            if l.len() >= 1 {
                proof {
                    assert(views(l@)[0] == l@[0]@);
                }
                match atom_text_exec(&l[0]) {
                    Some(field) => set_field(r, field, l),
                    None => {},
                }
            }
        },
        None => {},
    }
}

/// The entry described by the field items `fields[1..]`.
fn reference_of_exec(fields: &Vec<Expr>) -> (r: GuardReference)
    requires
        fields@.len() >= 1,
    ensures
        r@ == reference_of(views(fields@).subrange(1, fields@.len() as int)),
{
    let ghost xs = views(fields@);
    let mut r = empty_reference_exec();
    let mut j: usize = 1;
    proof {
        assert(xs.subrange(1, 1) =~= Seq::<Syntax>::empty());
    }
    while j < fields.len()
        invariant
            1 <= j <= fields@.len(),
            xs == views(fields@),
            r@ == reference_of(xs.subrange(1, j as int)),
        decreases fields.len() - j,
    {
        proof {
            let t = xs.subrange(1, j + 1);
            assert(t.drop_last() =~= xs.subrange(1, j as int));
            assert(t.last() == fields@[j as int]@);
        }
        apply_item_exec(&mut r, &fields[j]);
        j += 1;
    }
    r
}

fn put_reference_exec(m: &mut Vec<GuardReference>, r: GuardReference)
    requires
        forall|i: int, j: int| 0 <= i < j < old(m)@.len() ==> old(m)@[i]@.topic != old(m)@[j]@.topic,
    ensures
        forall|i: int, j: int| 0 <= i < j < final(m)@.len() ==> final(m)@[i]@.topic != final(m)@[j]@.topic,
        Seq::new(final(m)@.len(), |i: int| final(m)@[i]@) == put_reference(
            Seq::new(old(m)@.len(), |i: int| old(m)@[i]@),
            r@,
        ),
{
    let ghost before = Seq::new(m@.len(), |i: int| m@[i]@);
    let mut k: usize = 0;
    while k < m.len()
        invariant
            k <= m@.len(),
            m@ == old(m)@,
            before == Seq::new(old(m)@.len(), |i: int| old(m)@[i]@),
            forall|i: int, j: int| 0 <= i < j < m@.len() ==> m@[i]@.topic != m@[j]@.topic,
            forall|j: int| 0 <= j < k ==> before[j].topic != r@.topic,
        decreases m.len() - k,
    {
        if crate::text::string_eq(&m[k].topic, r.topic.as_str()) {
            let ghost rv = r@;
            m.set(k, r);
            proof {
                let kk = choose|j: int| 0 <= j < before.len() && before[j].topic == rv.topic;
                assert(before[k as int].topic == rv.topic);
                assert(kk == k) by {
                    if kk > k {
                        assert(old(m)@[k as int]@.topic != old(m)@[kk]@.topic);
                    }
                }
                assert(Seq::new(m@.len(), |i: int| m@[i]@) =~= put_reference(before, rv));
            }
            return;
        }
        k += 1;
    }
    let ghost rv = r@;
    let ghost mp = m@;
    m.push(r);
    proof {
        assert(!(exists|j: int| 0 <= j < before.len() && before[j].topic == rv.topic));
        assert forall|i: int, j: int| 0 <= i < j < m@.len() implies m@[i]@.topic != m@[j]@.topic by {
            if j == mp.len() {
                assert(before[i].topic != rv.topic);
                assert(m@[i] == mp[i]);
            } else {
                assert(m@[i] == mp[i]);
                assert(m@[j] == mp[j]);
            }
        }
        assert(Seq::new(m@.len(), |i: int| m@[i]@) =~= before.push(rv));
    }
}

/// Reads the reference directory text into topic entries; a text that does
/// not parse yields none.
pub fn parse_topics(source: &str) -> (r: TopicMap)
    requires
        match spec_parse(source@) {
            Ok(xs) => directory_readable(xs),
            Err(_) => true,
        },
    ensures
        r@ == spec_topics(source@),
{
    let mut m: Vec<GuardReference> = Vec::new();
    let exprs = match parse(source) {
        Ok(e) => e,
        Err(_) => {
            let r = TopicMap { entries: m };
            proof {
                assert(r@ =~= Seq::<ReferenceSpec>::empty());
            }
            return r;
        },
    };
    let ghost xs = views(exprs@);
    let mut i: usize = 0;
    proof {
        assert(xs.take(0) =~= Seq::<Syntax>::empty());
        assert(Seq::new(m@.len(), |k: int| m@[k]@) =~= Seq::<ReferenceSpec>::empty());
    }
    while i < exprs.len()
        invariant
            i <= exprs@.len(),
            xs == views(exprs@),
            directory_readable(xs),
            forall|a: int, b: int| 0 <= a < b < m@.len() ==> m@[a]@.topic != m@[b]@.topic,
            Seq::new(m@.len(), |k: int| m@[k]@) == topics_of(xs.take(i as int)),
        decreases exprs.len() - i,
    {
        proof {
            let t = xs.take(i + 1);
            assert(t.drop_last() =~= xs.take(i as int));
            assert(t.last() == exprs@[i as int]@);
            assert(xs[i as int] == exprs@[i as int]@);
        }
        add_directory_exec(&mut m, &exprs[i]);
        i += 1;
    }
    proof {
        assert(xs.take(exprs@.len() as int) =~= xs);
    }
    TopicMap { entries: m }
}

fn add_directory_exec(m: &mut Vec<GuardReference>, x: &Expr)
    requires
        forall|a: int, b: int| 0 <= a < b < old(m)@.len() ==> old(m)@[a]@.topic != old(m)@[b]@.topic,
        match x@.datum {
            Datum::List(l) => l.len() >= 1 && (atom_text(l[0]) == Some("def"@) ==> l.len() >= 2 && (
            (atom_text(l[1]) == Some("*guard-reference-directory*"@) && l.len() >= 3) ==> match l[2].datum {
                Datum::List(v) => v.len() >= 1,
                _ => true,
            })),
            _ => true,
        },
    ensures
        forall|a: int, b: int| 0 <= a < b < final(m)@.len() ==> final(m)@[a]@.topic != final(m)@[b]@.topic,
        Seq::new(final(m)@.len(), |k: int| final(m)@[k]@) == add_directory(
            Seq::new(old(m)@.len(), |k: int| old(m)@[k]@),
            x@,
        ),
{
    let l = match crate::syntax::as_list(x) {
        Some(l) => l,
        None => {
            return;
        },
    };
    proof {
        assert(views(l@)[0] == l@[0]@);
    }
    if !atom_is(&l[0], "def") {
        return;
    }
    proof {
        assert(views(l@)[1] == l@[1]@);
    }
    if !atom_is(&l[1], "*guard-reference-directory*") {
        return;
    }
    if l.len() < 3 {
        return;
    }
    proof {
        assert(views(l@)[2] == l@[2]@);
    }
    let v = match crate::syntax::as_list(&l[2]) {
        Some(v) => v,
        None => {
            return;
        },
    };
    proof {
        assert(views(v@)[0] == v@[0]@);
    }
    if !atom_is(&v[0], "quote") {
        return;
    }
    if v.len() < 2 {
        return;
    }
    proof {
        assert(views(v@)[1] == v@[1]@);
    }
    let data = match crate::syntax::as_list(&v[1]) {
        Some(d) => d,
        None => {
            return;
        },
    };
    let ghost ds = views(data@);
    let ghost m0 = Seq::new(m@.len(), |k: int| m@[k]@);
    let mut j: usize = 0;
    proof {
        assert(ds.take(0) =~= Seq::<Syntax>::empty());
    }
    while j < data.len()
        invariant
            j <= data@.len(),
            ds == views(data@),
            forall|a: int, b: int| 0 <= a < b < m@.len() ==> m@[a]@.topic != m@[b]@.topic,
            Seq::new(m@.len(), |k: int| m@[k]@) == add_entries(m0, ds.take(j as int)),
        decreases data.len() - j,
    {
        proof {
            let t = ds.take(j + 1);
            assert(t.drop_last() =~= ds.take(j as int));
            assert(t.last() == data@[j as int]@);
        }
        let entry = &data[j];
        match crate::syntax::as_list(entry) {
            Some(fields) => {
                if fields.len() >= 1 {
                    proof {
                        assert(views(fields@)[0] == fields@[0]@);
                    }
                    if atom_is(&fields[0], "reference") {
                        let r = reference_of_exec(fields);
                        if !r.topic.as_str().is_empty() {
                            put_reference_exec(m, r);
                        }
                    }
                }
            },
            None => {},
        }
        j += 1;
    }
    proof {
        assert(ds.take(data@.len() as int) =~= ds);
    }
}

/// The function a library form defines, if any.
fn function_of_exec(x: &Expr) -> (r: Option<GuardFunction>)
    requires
        match x@.datum {
            Datum::List(l) => l.len() >= 1 && (atom_text(l[0]) == Some("def"@) ==> l.len() >= 2 && (
            (l[1].datum is Sym && l.len() >= 3) ==> match l[2].datum {
                Datum::List(v) => v.len() >= 1,
                _ => true,
            })),
            _ => true,
        },
    ensures
        match r {
            Some(f) => function_of(x@) == Some(f@),
            None => function_of(x@) is None,
        },
{
    let head = match crate::syntax::as_list(x) {
        Some(l) => l,
        None => {
            return None;
        },
    };
    proof {
        assert(views(head@)[0] == head@[0]@);
    }
    if !atom_is(&head[0], "def") {
        return None;
    }
    proof {
        assert(views(head@)[1] == head@[1]@);
    }
    let name = match crate::syntax::as_symbol(&head[1]) {
        Some(n) => n,
        None => {
            return None;
        },
    };
    if head.len() < 3 {
        return None;
    }
    proof {
        assert(views(head@)[2] == head@[2]@);
    }
    let lambda = match crate::syntax::as_list(&head[2]) {
        Some(l) => l,
        None => {
            return None;
        },
    };
    proof {
        assert(views(lambda@)[0] == lambda@[0]@);
    }
    if !atom_is(&lambda[0], "lambda") {
        return None;
    }
    if lambda.len() < 2 {
        return None;
    }
    proof {
        assert(views(lambda@)[1] == lambda@[1]@);
    }
    match crate::syntax::as_list(&lambda[1]) {
        Some(params) => Some(
            GuardFunction {
                name: copy_string(name),
                name_span: head[1].span,
                form_span: x.span,
                arity: params.len(),
            },
        ),
        None => None,
    }
}

fn put_function_exec(m: &mut Vec<GuardFunction>, f: GuardFunction)
    requires
        forall|i: int, j: int| 0 <= i < j < old(m)@.len() ==> old(m)@[i]@.name != old(m)@[j]@.name,
    ensures
        forall|i: int, j: int| 0 <= i < j < final(m)@.len() ==> final(m)@[i]@.name != final(m)@[j]@.name,
        Seq::new(final(m)@.len(), |i: int| final(m)@[i]@) == put_function(
            Seq::new(old(m)@.len(), |i: int| old(m)@[i]@),
            f@,
        ),
{
    let ghost before = Seq::new(m@.len(), |i: int| m@[i]@);
    let mut k: usize = 0;
    while k < m.len()
        invariant
            k <= m@.len(),
            m@ == old(m)@,
            before == Seq::new(old(m)@.len(), |i: int| old(m)@[i]@),
            forall|i: int, j: int| 0 <= i < j < m@.len() ==> m@[i]@.name != m@[j]@.name,
            forall|j: int| 0 <= j < k ==> before[j].name != f@.name,
        decreases m.len() - k,
    {
        if crate::text::string_eq(&m[k].name, f.name.as_str()) {
            let ghost fv = f@;
            m.set(k, f);
            proof {
                let kk = choose|j: int| 0 <= j < before.len() && before[j].name == fv.name;
                assert(before[k as int].name == fv.name);
                assert(kk == k) by {
                    if kk > k {
                        assert(old(m)@[k as int]@.name != old(m)@[kk]@.name);
                    }
                }
                assert(Seq::new(m@.len(), |i: int| m@[i]@) =~= put_function(before, fv));
            }
            return;
        }
        k += 1;
    }
    let ghost fv = f@;
    let ghost mp = m@;
    m.push(f);
    proof {
        assert(!(exists|j: int| 0 <= j < before.len() && before[j].name == fv.name));
        assert forall|i: int, j: int| 0 <= i < j < m@.len() implies m@[i]@.name != m@[j]@.name by {
            if j == mp.len() {
                assert(before[i].name != fv.name);
                assert(m@[i] == mp[i]);
            } else {
                assert(m@[i] == mp[i]);
                assert(m@[j] == mp[j]);
            }
        }
        assert(Seq::new(m@.len(), |i: int| m@[i]@) =~= before.push(fv));
    }
}

/// Reads the guard library text into its functions and their arities; a
/// text that does not parse yields none.
pub fn parse_functions(source: &str) -> (r: FunctionMap)
    requires
        match spec_parse(source@) {
            Ok(xs) => library_readable(xs),
            Err(_) => true,
        },
    ensures
        r@ == spec_functions(source@),
{
    let mut m: Vec<GuardFunction> = Vec::new();
    let exprs = match parse(source) {
        Ok(e) => e,
        Err(_) => {
            let r = FunctionMap { entries: m };
            proof {
                assert(r@ =~= Seq::<FunctionSpec>::empty());
            }
            return r;
        },
    };
    let ghost xs = views(exprs@);
    let mut i: usize = 0;
    proof {
        assert(xs.take(0) =~= Seq::<Syntax>::empty());
        assert(Seq::new(m@.len(), |k: int| m@[k]@) =~= Seq::<FunctionSpec>::empty());
    }
    while i < exprs.len()
        invariant
            i <= exprs@.len(),
            xs == views(exprs@),
            library_readable(xs),
            forall|a: int, b: int| 0 <= a < b < m@.len() ==> m@[a]@.name != m@[b]@.name,
            Seq::new(m@.len(), |k: int| m@[k]@) == functions_of(xs.take(i as int)),
        decreases exprs.len() - i,
    {
        proof {
            let t = xs.take(i + 1);
            assert(t.drop_last() =~= xs.take(i as int));
            assert(t.last() == exprs@[i as int]@);
            assert(xs[i as int] == exprs@[i as int]@);
        }
        match function_of_exec(&exprs[i]) {
            Some(f) => put_function_exec(&mut m, f),
            None => {},
        }
        i += 1;
    }
    proof {
        assert(xs.take(exprs@.len() as int) =~= xs);
    }
    FunctionMap { entries: m }
}

/// Whether the reference directory text can be read without indexing past
/// the end of a list (see `directory_readable`).
pub fn topics_readable(source: &str) -> (r: bool)
    ensures
        r == match spec_parse(source@) {
            Ok(xs) => directory_readable(xs),
            Err(_) => true,
        },
{
    let exprs = match parse(source) {
        Ok(e) => e,
        Err(_) => {
            return true;
        },
    };
    let ghost xs = views(exprs@);
    let mut i: usize = 0;
    while i < exprs.len()
        invariant
            i <= exprs@.len(),
            xs == views(exprs@),
            spec_parse(source@) == Ok::<Seq<Syntax>, crate::error::ErrorSpec>(xs),
            forall|k: int| 0 <= k < i ==> match (#[trigger] xs[k]).datum {
                Datum::List(l) => l.len() >= 1 && (atom_text(l[0]) == Some("def"@) ==> l.len() >= 2
                    && ((atom_text(l[1]) == Some("*guard-reference-directory*"@) && l.len() >= 3)
                    ==> match l[2].datum {
                    Datum::List(v) => v.len() >= 1,
                    _ => true,
                })),
                _ => true,
            },
        decreases exprs.len() - i,
    {
        assert(xs[i as int] == exprs@[i as int]@);
        if let Some(l) = crate::syntax::as_list(&exprs[i]) {
            if l.len() == 0 {
                return false;
            }
            proof {
                assert(views(l@)[0] == l@[0]@);
            }
            if atom_is(&l[0], "def") {
                if l.len() < 2 {
                    return false;
                }
                proof {
                    assert(views(l@)[1] == l@[1]@);
                }
                if atom_is(&l[1], "*guard-reference-directory*") && l.len() >= 3 {
                    proof {
                        assert(views(l@)[2] == l@[2]@);
                    }
                    if let Some(v) = crate::syntax::as_list(&l[2]) {
                        if v.len() == 0 {
                            return false;
                        }
                    }
                }
            }
        }
        i += 1;
    }
    true
}

/// Whether the guard library text can be read without indexing past the
/// end of a list (see `library_readable`).
pub fn functions_readable(source: &str) -> (r: bool)
    ensures
        r == match spec_parse(source@) {
            Ok(xs) => library_readable(xs),
            Err(_) => true,
        },
{
    let exprs = match parse(source) {
        Ok(e) => e,
        Err(_) => {
            return true;
        },
    };
    let ghost xs = views(exprs@);
    let mut i: usize = 0;
    while i < exprs.len()
        invariant
            i <= exprs@.len(),
            xs == views(exprs@),
            spec_parse(source@) == Ok::<Seq<Syntax>, crate::error::ErrorSpec>(xs),
            forall|k: int| 0 <= k < i ==> match (#[trigger] xs[k]).datum {
                Datum::List(l) => l.len() >= 1 && (atom_text(l[0]) == Some("def"@) ==> l.len() >= 2
                    && ((l[1].datum is Sym && l.len() >= 3) ==> match l[2].datum {
                    Datum::List(v) => v.len() >= 1,
                    _ => true,
                })),
                _ => true,
            },
        decreases exprs.len() - i,
    {
        assert(xs[i as int] == exprs@[i as int]@);
        if let Some(l) = crate::syntax::as_list(&exprs[i]) {
            if l.len() == 0 {
                return false;
            }
            proof {
                assert(views(l@)[0] == l@[0]@);
            }
            if atom_is(&l[0], "def") {
                if l.len() < 2 {
                    return false;
                }
                proof {
                    assert(views(l@)[1] == l@[1]@);
                }
                let is_sym = match crate::syntax::as_symbol(&l[1]) {
                    Some(_) => true,
                    None => false,
                };
                if is_sym && l.len() >= 3 {
                    proof {
                        assert(views(l@)[2] == l@[2]@);
                    }
                    if let Some(v) = crate::syntax::as_list(&l[2]) {
                        if v.len() == 0 {
                            return false;
                        }
                    }
                }
            }
        }
        i += 1;
    }
    true
}

// ---------------------------------------------------------------------------
// The knowledge snapshot
// ---------------------------------------------------------------------------

/// Guard knowledge: the reference topics (read on first need), the guard
/// functions, and where both were read from.
#[derive(Debug)]
pub struct GuardKnowledge {
    pub topics: TopicMap,
    pub functions: FunctionMap,
    /// Where the reference directory lives.
    pub reference_file_uri: Option<String>,
    /// Where the guard library was read from, if it exists.
    pub guard_file_uri: Option<String>,
    /// Full text of the guard library, if it exists.
    pub guard_file_text: Option<String>,
    /// Whether the reference directory has been read.
    pub topics_loaded: bool,
}

impl GuardKnowledge {
    /// The snapshot without any knowledge.
    pub fn empty() -> (r: GuardKnowledge)
        ensures
            r.topics@.len() == 0,
            r.functions@.len() == 0,
            r.reference_file_uri is None,
            r.guard_file_uri is None,
            r.guard_file_text is None,
            !r.topics_loaded,
    {
        let r = GuardKnowledge {
            topics: TopicMap { entries: Vec::new() },
            functions: FunctionMap { entries: Vec::new() },
            reference_file_uri: None,
            guard_file_uri: None,
            guard_file_text: None,
            topics_loaded: false,
        };
        proof {
            assert(r.topics@ =~= Seq::<ReferenceSpec>::empty());
            assert(r.functions@ =~= Seq::<FunctionSpec>::empty());
        }
        r
    }

    /// The snapshot of the guard library alone: `guard` is the library's URI
    /// and text where the file exists; the reference directory at
    /// `reference_uri` is left to be read on first need.
    pub fn load_functions(reference_uri: String, guard: Option<(String, String)>) -> (r: GuardKnowledge)
        requires
            guard matches Some((_, text)) ==> match spec_parse(text@) {
                Ok(xs) => library_readable(xs),
                Err(_) => true,
            },
        ensures
            r.topics@.len() == 0,
            r.functions@ == match guard {
                Some((_, text)) => spec_functions(text@),
                None => Seq::empty(),
            },
            r.reference_file_uri == Some(reference_uri),
            r.guard_file_uri == match guard {
                Some((uri, _)) => Some(uri),
                None => None::<String>,
            },
            r.guard_file_text == match guard {
                Some((_, text)) => Some(text),
                None => None::<String>,
            },
            !r.topics_loaded,
    {
        let mut r = GuardKnowledge::empty();
        r.reference_file_uri = Some(reference_uri);
        match guard {
            Some((uri, text)) => {
                r.functions = parse_functions(text.as_str());
                r.guard_file_uri = Some(uri);
                r.guard_file_text = Some(text);
            },
            None => {},
        }
        r
    }

    /// The full snapshot: the guard library and the reference directory
    /// text found at `reference_uri` (empty where the file is missing).
    pub fn load(reference_uri: String, reference_text: &str, guard: Option<(String, String)>) -> (r:
        GuardKnowledge)
        requires
            guard matches Some((_, text)) ==> match spec_parse(text@) {
                Ok(xs) => library_readable(xs),
                Err(_) => true,
            },
            match spec_parse(reference_text@) {
                Ok(xs) => directory_readable(xs),
                Err(_) => true,
            },
        ensures
            r.topics@ == spec_topics(reference_text@),
            r.functions@ == match guard {
                Some((_, text)) => spec_functions(text@),
                None => Seq::empty(),
            },
            r.reference_file_uri == Some(reference_uri),
            r.guard_file_uri == match guard {
                Some((uri, _)) => Some(uri),
                None => None::<String>,
            },
            r.guard_file_text == match guard {
                Some((_, text)) => Some(text),
                None => None::<String>,
            },
            r.topics_loaded,
    {
        let mut knowledge = GuardKnowledge::load_functions(reference_uri, guard);
        knowledge.load_topics(reference_text);
        knowledge
    }

    /// Reads the reference directory text, unless it was read before.
    pub fn load_topics(&mut self, reference_text: &str)
        requires
            match spec_parse(reference_text@) {
                Ok(xs) => directory_readable(xs),
                Err(_) => true,
            },
        ensures
            final(self).topics_loaded,
            final(self).topics@ == if old(self).topics_loaded {
                old(self).topics@
            } else {
                spec_topics(reference_text@)
            },
            final(self).functions@ == old(self).functions@,
            final(self).reference_file_uri == old(self).reference_file_uri,
            final(self).guard_file_uri == old(self).guard_file_uri,
            final(self).guard_file_text == old(self).guard_file_text,
    {
        if self.topics_loaded {
            return;
        }
        self.topics_loaded = true;
        self.topics = parse_topics(reference_text);
    }

    /// The source text of a guard function's defining form, where the
    /// snapshot holds the guard library.
    pub fn source_of(&self, function: &GuardFunction) -> (r: Option<String>)
        ensures
            match r {
                Some(t) => self.guard_file_text matches Some(text) && t@ == crate::analysis::span_text_spec(
                    text@,
                    function.form_span,
                ),
                None => self.guard_file_text is None,
            },
    {
        match &self.guard_file_text {
            Some(text) => Some(span_text(text.as_str(), function.form_span)),
            None => None,
        }
    }

    /// The guard functions as callables for arity checks: each is a builtin
    /// taking exactly its lambda's parameter count.
    pub fn arity_items(&self) -> (r: Vec<(String, LanguageItemKind, Arity)>)
        ensures
            r@.len() == self.functions@.len(),
            forall|i: int|
                0 <= i < r@.len() ==> (#[trigger] r@[i]).0@ == self.functions@[i].name && r@[i].1
                    == LanguageItemKind::Builtin && (r@[i].2 matches Arity::Exact(n) && n
                    == self.functions@[i].arity),
    {
        let mut out: Vec<(String, LanguageItemKind, Arity)> = Vec::new();
        let mut i: usize = 0;
        while i < self.functions.entries.len()
            invariant
                i <= self.functions.entries@.len(),
                out@.len() == i,
                forall|k: int|
                    0 <= k < i ==> (#[trigger] out@[k]).0@ == self.functions@[k].name && out@[k].1
                        == LanguageItemKind::Builtin && (out@[k].2 matches Arity::Exact(n) && n
                        == self.functions@[k].arity),
            decreases self.functions.entries.len() - i,
        {
            let f = &self.functions.entries[i];
            out.push((copy_string(&f.name), LanguageItemKind::Builtin, Arity::Exact(f.arity)));
            i += 1;
        }
        out
    }

    /// The reference entry of a topic.
    pub fn topic(&self, name: &str) -> (r: Option<&GuardReference>)
        ensures
            match r {
                Some(e) => exists|k: int| 0 <= k < self.topics@.len() && self.topics@[k] == e@ && e@.topic == name@,
                None => forall|k: int| 0 <= k < self.topics@.len() ==> self.topics@[k].topic != name@,
            },
    {
        self.topics.get(name)
    }

    /// The guard function named `name`.
    pub fn function(&self, name: &str) -> (r: Option<&GuardFunction>)
        ensures
            match r {
                Some(e) => exists|k: int| 0 <= k < self.functions@.len() && self.functions@[k] == e@ && e@.name == name@,
                None => forall|k: int| 0 <= k < self.functions@.len() ==> self.functions@[k].name != name@,
            },
    {
        self.functions.get(name)
    }
}

} // verus!
