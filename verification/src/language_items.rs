//! Language items for tooling: operation metadata of the runtime builtins
//! and of the syntax forms keyed by numeric semantic identity.
use vstd::prelude::*;
use crate::text::{copy_string, decimal_digits, owned, push_decimal, push_str, str_eq, string_eq};
use crate::surface_registry::pairs_of;

verus! {

/// What kind of language item a name denotes.
#[derive(Clone, Copy, Debug, PartialEq, Eq)]
pub enum LanguageItemKind {
    Builtin,
    Macro,
    SyntaxForm,
}

/// How many arguments an operation takes.
#[derive(Clone, Copy, Debug, PartialEq, Eq)]
pub enum Arity {
    Exact(usize),
    AtLeast(usize),
    Between { min: usize, max: usize },
}

/// The text `expected` gives for an arity.
pub open spec fn expected_text(a: Arity) -> Seq<char> {
    match a {
        Arity::Exact(n) => decimal_digits(n as nat),
        Arity::AtLeast(m) => "at least "@ + decimal_digits(m as nat),
        Arity::Between { min, max } => "between "@ + decimal_digits(min as nat) + " and "@
            + decimal_digits(max as nat),
    }
}

impl Arity {
    /// Whether `received` arguments satisfy the arity.
    pub fn accepts(self, received: usize) -> (r: bool)
        ensures
            r == match self {
                Arity::Exact(n) => received == n,
                Arity::AtLeast(m) => received >= m,
                Arity::Between { min, max } => min <= received <= max,
            },
    {
        match self {
            Arity::Exact(expected) => received == expected,
            Arity::AtLeast(minimum) => received >= minimum,
            Arity::Between { min, max } => min <= received && received <= max,
        }
    }

    /// The expected argument count in words: `2`, `at least 1`, `between 0 and 1`.
    pub fn expected(self) -> (r: String)
        ensures
            r@ == expected_text(self),
    {
        let mut out = String::new();
        match self {
            Arity::Exact(n) => {
                push_decimal(&mut out, n as u64);
            },
            Arity::AtLeast(m) => {
                push_str(&mut out, "at least ");
                push_decimal(&mut out, m as u64);
            },
            Arity::Between { min, max } => {
                push_str(&mut out, "between ");
                push_decimal(&mut out, min as u64);
                push_str(&mut out, " and ");
                push_decimal(&mut out, max as u64);
            },
        }
        proof {
            assert(out@ =~= expected_text(self));
        }
        out
    }
}

/// One discoverable language item.
#[derive(Clone, Debug, PartialEq, Eq)]
pub struct LanguageItem {
    pub name: String,
    /// Numeric semantic identity where the surface registry governs the item.
    pub semantic_id: Option<&'static str>,
    pub signature: &'static str,
    pub documentation: &'static str,
    pub kind: LanguageItemKind,
    pub arity: Arity,
}

/// Signature, documentation and arity of a runtime builtin, by the name of
/// its operation; operations without their own entry get a generic one.
pub open spec fn builtin_metadata_spec(name: Seq<char>) -> (Seq<char>, Seq<char>, Arity) {
    if name == "+"@ {
        ("(+ number ...)"@, "Sum all arguments"@, Arity::AtLeast(0))
    } else if name == "-"@ {
        ("(- number ...)"@, "Subtract or negate"@, Arity::AtLeast(1))
    } else if name == "*"@ {
        ("(* number ...)"@, "Multiply all arguments"@, Arity::AtLeast(0))
    } else if name == "/"@ {
        ("(/ number ...)"@, "Perform exact rational division"@, Arity::AtLeast(1))
    } else if name == "<"@ {
        ("(< number ...)"@, "Less-than chain comparison"@, Arity::AtLeast(1))
    } else if name == ">"@ {
        ("(> number ...)"@, "Greater-than chain comparison"@, Arity::AtLeast(1))
    } else if name == "="@ {
        ("(= number ...)"@, "Numeric equality"@, Arity::AtLeast(1))
    } else if name == "atom"@ {
        ("(atom value)"@, "Test whether value is not a pair"@, Arity::Exact(1))
    } else if name == "car"@ {
        ("(car pair)"@, "Return the first element of a pair"@, Arity::Exact(1))
    } else if name == "cdr"@ {
        ("(cdr pair)"@, "Return the tail of a pair"@, Arity::Exact(1))
    } else if name == "cons"@ {
        ("(cons head tail)"@, "Create a pair"@, Arity::Exact(2))
    } else if name == "eq"@ {
        ("(eq left right)"@, "Test structural or identity equality"@, Arity::Exact(2))
    } else if name == "env"@ {
        ("(env)"@, "Return visible bindings as an alist"@, Arity::Exact(0))
    } else if name == "make-vector"@ {
        ("(make-vector length)"@, "Create a vector of nil slots"@, Arity::Exact(1))
    } else if name == "vector"@ {
        ("(vector value ...)"@, "Create a vector containing the arguments"@, Arity::AtLeast(0))
    } else if name == "vector-length"@ {
        ("(vector-length vector)"@, "Return the element count"@, Arity::Exact(1))
    } else if name == "vector-ref"@ {
        ("(vector-ref vector index)"@, "Return an element by index"@, Arity::Exact(2))
    } else if name == "vector-set!"@ {
        ("(vector-set! vector index value)"@, "Mutate a vector slot"@, Arity::Exact(3))
    } else if name == "mono-ns"@ {
        ("(mono-ns)"@, "Return a monotonic nanosecond counter as an exact integer"@, Arity::Exact(0))
    } else if name == "unix-time-now"@ {
        ("(unix-time-now)"@, "Observe the host wall clock as raw Unix seconds and nanoseconds"@, Arity::Exact(0))
    } else if name == "ntp-query-raw"@ {
        ("(ntp-query-raw host timeout-ms)"@, "Perform one bounded NTP query and return raw protocol fields"@, Arity::Exact(2))
    } else if name == "timezone-declarations-raw"@ {
        ("(timezone-declarations-raw)"@, "Observe raw TZ and /etc/timezone declaration candidates"@, Arity::Exact(0))
    } else if name == "i32-buffer"@ {
        ("(i32-buffer number ...)"@, "Create a signed 32-bit numeric buffer"@, Arity::AtLeast(0))
    } else if name == "f32-buffer"@ {
        ("(f32-buffer number ...)"@, "Create a binary32 numeric buffer"@, Arity::AtLeast(0))
    } else if name == "numeric-buffer?"@ {
        ("(numeric-buffer? value)"@, "Test for a numeric buffer"@, Arity::Exact(1))
    } else if name == "numeric-buffer-type"@ {
        ("(numeric-buffer-type buffer)"@, "Return i32 or f32"@, Arity::Exact(1))
    } else if name == "numeric-buffer-length"@ {
        ("(numeric-buffer-length buffer)"@, "Return the element count"@, Arity::Exact(1))
    } else if name == "numeric-buffer-ref"@ {
        ("(numeric-buffer-ref buffer index)"@, "Return an element by index"@, Arity::Exact(2))
    } else if name == "numeric-buffer-map"@ {
        ("(numeric-buffer-map function buffer)"@, "Map a function over a numeric buffer"@, Arity::Exact(2))
    } else if name == "string-slice"@ {
        ("(string-slice string start end)"@, "Return a UTF-8-safe substring"@, Arity::Exact(3))
    } else if name == "string-append"@ {
        ("(string-append left right)"@, "Concatenate two strings"@, Arity::Exact(2))
    } else if name == "string<?"@ {
        ("(string<? left right)"@, "Compare strings lexicographically"@, Arity::Exact(2))
    } else if name == "string?"@ {
        ("(string? value)"@, "Return t if value is a string"@, Arity::Exact(1))
    } else if name == "symbol->string"@ {
        ("(symbol->string symbol)"@, "Return the string form of a symbol"@, Arity::Exact(1))
    } else if name == "string->symbol"@ {
        ("(string->symbol string)"@, "Create a symbol from a string"@, Arity::Exact(1))
    } else if name == "string-first"@ {
        ("(string-first string)"@, "Return the first character as a string"@, Arity::Exact(1))
    } else if name == "string-rest"@ {
        ("(string-rest string)"@, "Return the string without its first character"@, Arity::Exact(1))
    } else if name == "codepoint->string"@ {
        ("(codepoint->string scalar)"@, "Materialize one Unicode scalar as a string"@, Arity::Exact(1))
    } else if name == "string->codepoint"@ {
        ("(string->codepoint string)"@, "Return the Unicode scalar value of one-character string"@, Arity::Exact(1))
    } else if name == "sha256-hex"@ {
        ("(sha256-hex string)"@, "Return the SHA-256 hex digest"@, Arity::Exact(1))
    } else if name == "json-parse"@ {
        ("(json-parse string)"@, "Parse JSON into my-lisp values"@, Arity::Exact(1))
    } else if name == "print"@ {
        ("(print value)"@, "Output value followed by newline"@, Arity::Exact(1))
    } else if name == "princ"@ {
        ("(princ value)"@, "Output value without reader quoting"@, Arity::Exact(1))
    } else if name == "write-to-string"@ {
        ("(write-to-string value)"@, "Return a readable string representation"@, Arity::Exact(1))
    } else if name == "read"@ {
        ("(read [source])"@, "Read one s-expression from a string or stdin"@, Arity::Between { min: 0, max: 1 })
    } else if name == "read-all"@ {
        ("(read-all source)"@, "Read all expressions from a string"@, Arity::Exact(1))
    } else if name == "eval"@ {
        ("(eval expression)"@, "Evaluate an expression represented as data"@, Arity::Exact(1))
    } else {
        ("(builtin ...)"@, "First-class runtime builtin"@, Arity::AtLeast(0))
    }
}

/// Signature, documentation and arity of a runtime builtin operation.
#[verifier::rlimit(50)]
pub fn builtin_metadata(name: &str) -> (r: (&'static str, &'static str, Arity))
    ensures
        (r.0@, r.1@, r.2) == builtin_metadata_spec(name@),
{
    if str_eq(name, "+") {
        ("(+ number ...)", "Sum all arguments", Arity::AtLeast(0))
    } else if str_eq(name, "-") {
        ("(- number ...)", "Subtract or negate", Arity::AtLeast(1))
    } else if str_eq(name, "*") {
        ("(* number ...)", "Multiply all arguments", Arity::AtLeast(0))
    } else if str_eq(name, "/") {
        ("(/ number ...)", "Perform exact rational division", Arity::AtLeast(1))
    } else if str_eq(name, "<") {
        ("(< number ...)", "Less-than chain comparison", Arity::AtLeast(1))
    } else if str_eq(name, ">") {
        ("(> number ...)", "Greater-than chain comparison", Arity::AtLeast(1))
    } else if str_eq(name, "=") {
        ("(= number ...)", "Numeric equality", Arity::AtLeast(1))
    } else if str_eq(name, "atom") {
        ("(atom value)", "Test whether value is not a pair", Arity::Exact(1))
    } else if str_eq(name, "car") {
        ("(car pair)", "Return the first element of a pair", Arity::Exact(1))
    } else if str_eq(name, "cdr") {
        ("(cdr pair)", "Return the tail of a pair", Arity::Exact(1))
    } else if str_eq(name, "cons") {
        ("(cons head tail)", "Create a pair", Arity::Exact(2))
    } else if str_eq(name, "eq") {
        ("(eq left right)", "Test structural or identity equality", Arity::Exact(2))
    } else if str_eq(name, "env") {
        ("(env)", "Return visible bindings as an alist", Arity::Exact(0))
    } else if str_eq(name, "make-vector") {
        ("(make-vector length)", "Create a vector of nil slots", Arity::Exact(1))
    } else if str_eq(name, "vector") {
        ("(vector value ...)", "Create a vector containing the arguments", Arity::AtLeast(0))
    } else if str_eq(name, "vector-length") {
        ("(vector-length vector)", "Return the element count", Arity::Exact(1))
    } else if str_eq(name, "vector-ref") {
        ("(vector-ref vector index)", "Return an element by index", Arity::Exact(2))
    } else if str_eq(name, "vector-set!") {
        ("(vector-set! vector index value)", "Mutate a vector slot", Arity::Exact(3))
    } else if str_eq(name, "mono-ns") {
        ("(mono-ns)", "Return a monotonic nanosecond counter as an exact integer", Arity::Exact(0))
    } else if str_eq(name, "unix-time-now") {
        ("(unix-time-now)", "Observe the host wall clock as raw Unix seconds and nanoseconds", Arity::Exact(0))
    } else if str_eq(name, "ntp-query-raw") {
        ("(ntp-query-raw host timeout-ms)", "Perform one bounded NTP query and return raw protocol fields", Arity::Exact(2))
    } else if str_eq(name, "timezone-declarations-raw") {
        ("(timezone-declarations-raw)", "Observe raw TZ and /etc/timezone declaration candidates", Arity::Exact(0))
    } else if str_eq(name, "i32-buffer") {
        ("(i32-buffer number ...)", "Create a signed 32-bit numeric buffer", Arity::AtLeast(0))
    } else if str_eq(name, "f32-buffer") {
        ("(f32-buffer number ...)", "Create a binary32 numeric buffer", Arity::AtLeast(0))
    } else if str_eq(name, "numeric-buffer?") {
        ("(numeric-buffer? value)", "Test for a numeric buffer", Arity::Exact(1))
    } else if str_eq(name, "numeric-buffer-type") {
        ("(numeric-buffer-type buffer)", "Return i32 or f32", Arity::Exact(1))
    } else if str_eq(name, "numeric-buffer-length") {
        ("(numeric-buffer-length buffer)", "Return the element count", Arity::Exact(1))
    } else if str_eq(name, "numeric-buffer-ref") {
        ("(numeric-buffer-ref buffer index)", "Return an element by index", Arity::Exact(2))
    } else if str_eq(name, "numeric-buffer-map") {
        ("(numeric-buffer-map function buffer)", "Map a function over a numeric buffer", Arity::Exact(2))
    } else if str_eq(name, "string-slice") {
        ("(string-slice string start end)", "Return a UTF-8-safe substring", Arity::Exact(3))
    } else if str_eq(name, "string-append") {
        ("(string-append left right)", "Concatenate two strings", Arity::Exact(2))
    } else if str_eq(name, "string<?") {
        ("(string<? left right)", "Compare strings lexicographically", Arity::Exact(2))
    } else if str_eq(name, "string?") {
        ("(string? value)", "Return t if value is a string", Arity::Exact(1))
    } else if str_eq(name, "symbol->string") {
        ("(symbol->string symbol)", "Return the string form of a symbol", Arity::Exact(1))
    } else if str_eq(name, "string->symbol") {
        ("(string->symbol string)", "Create a symbol from a string", Arity::Exact(1))
    } else if str_eq(name, "string-first") {
        ("(string-first string)", "Return the first character as a string", Arity::Exact(1))
    } else if str_eq(name, "string-rest") {
        ("(string-rest string)", "Return the string without its first character", Arity::Exact(1))
    } else if str_eq(name, "codepoint->string") {
        ("(codepoint->string scalar)", "Materialize one Unicode scalar as a string", Arity::Exact(1))
    } else if str_eq(name, "string->codepoint") {
        ("(string->codepoint string)", "Return the Unicode scalar value of one-character string", Arity::Exact(1))
    } else if str_eq(name, "sha256-hex") {
        ("(sha256-hex string)", "Return the SHA-256 hex digest", Arity::Exact(1))
    } else if str_eq(name, "json-parse") {
        ("(json-parse string)", "Parse JSON into my-lisp values", Arity::Exact(1))
    } else if str_eq(name, "print") {
        ("(print value)", "Output value followed by newline", Arity::Exact(1))
    } else if str_eq(name, "princ") {
        ("(princ value)", "Output value without reader quoting", Arity::Exact(1))
    } else if str_eq(name, "write-to-string") {
        ("(write-to-string value)", "Return a readable string representation", Arity::Exact(1))
    } else if str_eq(name, "read") {
        ("(read [source])", "Read one s-expression from a string or stdin", Arity::Between { min: 0, max: 1 })
    } else if str_eq(name, "read-all") {
        ("(read-all source)", "Read all expressions from a string", Arity::Exact(1))
    } else if str_eq(name, "eval") {
        ("(eval expression)", "Evaluate an expression represented as data", Arity::Exact(1))
    } else {
        ("(builtin ...)", "First-class runtime builtin", Arity::AtLeast(0))
    }
}

/// Which registry spellings of a semantic identity tooling presents.
#[derive(Clone, Copy, Debug, PartialEq, Eq)]
pub enum SurfacePolicy {
    Stable,
    Admitted,
}

/// Tooling metadata of a syntax form, keyed by numeric semantic identity.
#[derive(Clone, Copy, Debug)]
pub struct SemanticToolingMetadata {
    pub semantic_id: &'static str,
    pub signature: &'static str,
    pub documentation: &'static str,
    pub kind: LanguageItemKind,
    pub arity: Arity,
    pub surface_policy: SurfacePolicy,
}

pub struct ToolingSpec {
    pub semantic_id: Seq<char>,
    pub signature: Seq<char>,
    pub documentation: Seq<char>,
    pub kind: LanguageItemKind,
    pub arity: Arity,
    pub surface_policy: SurfacePolicy,
}

impl SemanticToolingMetadata {
    pub open spec fn view(&self) -> ToolingSpec {
        ToolingSpec {
            semantic_id: self.semantic_id@,
            signature: self.signature@,
            documentation: self.documentation@,
            kind: self.kind,
            arity: self.arity,
            surface_policy: self.surface_policy,
        }
    }
}

/// The tooling table of the syntax forms.
pub open spec fn semantic_tooling_spec() -> Seq<ToolingSpec> {
    seq![
        ToolingSpec { semantic_id: "0001"@, signature: "(quote value)"@, documentation: "Return value unevaluated"@, kind: LanguageItemKind::SyntaxForm, arity: Arity::Exact(1), surface_policy: SurfacePolicy::Stable },
        ToolingSpec { semantic_id: "0007"@, signature: "(cond (test result) ...)"@, documentation: "Evaluate the first matching clause"@, kind: LanguageItemKind::SyntaxForm, arity: Arity::AtLeast(0), surface_policy: SurfacePolicy::Stable },
        ToolingSpec { semantic_id: "0010"@, signature: "(lambda (params) body ...)"@, documentation: "Create an anonymous function"@, kind: LanguageItemKind::SyntaxForm, arity: Arity::AtLeast(2), surface_policy: SurfacePolicy::Stable },
        ToolingSpec { semantic_id: "0011"@, signature: "(define name value)"@, documentation: "Bind name in the current scope"@, kind: LanguageItemKind::SyntaxForm, arity: Arity::Exact(2), surface_policy: SurfacePolicy::Stable },
        ToolingSpec { semantic_id: "0012"@, signature: "(defmacro name (params) body ...)"@, documentation: "Bind a language-owned macro"@, kind: LanguageItemKind::Macro, arity: Arity::AtLeast(3), surface_policy: SurfacePolicy::Admitted },
        ToolingSpec { semantic_id: "1000"@, signature: "(def name value)"@, documentation: "Compatibility-only binding form"@, kind: LanguageItemKind::SyntaxForm, arity: Arity::Exact(2), surface_policy: SurfacePolicy::Admitted },
    ]
}

/// The tooling table of the syntax forms, in order.
pub fn semantic_tooling() -> (r: Vec<SemanticToolingMetadata>)
    ensures
        Seq::new(r@.len(), |i: int| r@[i]@) == semantic_tooling_spec(),
{
    let v = vec![
        SemanticToolingMetadata { semantic_id: "0001", signature: "(quote value)", documentation: "Return value unevaluated", kind: LanguageItemKind::SyntaxForm, arity: Arity::Exact(1), surface_policy: SurfacePolicy::Stable },
        SemanticToolingMetadata { semantic_id: "0007", signature: "(cond (test result) ...)", documentation: "Evaluate the first matching clause", kind: LanguageItemKind::SyntaxForm, arity: Arity::AtLeast(0), surface_policy: SurfacePolicy::Stable },
        SemanticToolingMetadata { semantic_id: "0010", signature: "(lambda (params) body ...)", documentation: "Create an anonymous function", kind: LanguageItemKind::SyntaxForm, arity: Arity::AtLeast(2), surface_policy: SurfacePolicy::Stable },
        SemanticToolingMetadata { semantic_id: "0011", signature: "(define name value)", documentation: "Bind name in the current scope", kind: LanguageItemKind::SyntaxForm, arity: Arity::Exact(2), surface_policy: SurfacePolicy::Stable },
        SemanticToolingMetadata { semantic_id: "0012", signature: "(defmacro name (params) body ...)", documentation: "Bind a language-owned macro", kind: LanguageItemKind::Macro, arity: Arity::AtLeast(3), surface_policy: SurfacePolicy::Admitted },
        SemanticToolingMetadata { semantic_id: "1000", signature: "(def name value)", documentation: "Compatibility-only binding form", kind: LanguageItemKind::SyntaxForm, arity: Arity::Exact(2), surface_policy: SurfacePolicy::Admitted },
    ];
    proof {
        assert(Seq::new(v@.len(), |i: int| v@[i]@) =~= semantic_tooling_spec());
    }
    v
}

/// A language item as a mathematical value.
pub struct ItemSpec {
    pub name: Seq<char>,
    pub semantic_id: Option<Seq<char>>,
    pub signature: Seq<char>,
    pub documentation: Seq<char>,
    pub kind: LanguageItemKind,
    pub arity: Arity,
}

impl LanguageItem {
    pub open spec fn view(&self) -> ItemSpec {
        ItemSpec {
            name: self.name@,
            semantic_id: match self.semantic_id {
                Some(s) => Some(s@),
                None => None,
            },
            signature: self.signature@,
            documentation: self.documentation@,
            kind: self.kind,
            arity: self.arity,
        }
    }
}

pub open spec fn items_view(v: Seq<LanguageItem>) -> Seq<ItemSpec> {
    Seq::new(v.len(), |i: int| v[i].view())
}

/// The spellings a (semantic id, spelling) relation gives `sid`, in order.
pub open spec fn names_for(rel: Seq<(Seq<char>, Seq<char>)>, sid: Seq<char>) -> Seq<Seq<char>>
    decreases rel.len(),
{
    if rel.len() == 0 {
        Seq::empty()
    } else {
        let rest = names_for(rel.drop_last(), sid);
        if rel.last().0 == sid {
            rest.push(rel.last().1)
        } else {
            rest
        }
    }
}

/// The item a tooling entry gives the spelling `name`.
pub open spec fn item_of(t: ToolingSpec, name: Seq<char>) -> ItemSpec {
    ItemSpec {
        name,
        semantic_id: Some(t.semantic_id),
        signature: t.signature,
        documentation: t.documentation,
        kind: t.kind,
        arity: t.arity,
    }
}

pub open spec fn items_of(t: ToolingSpec, names: Seq<Seq<char>>) -> Seq<ItemSpec> {
    Seq::new(names.len(), |i: int| item_of(t, names[i]))
}

/// The syntax-form items: for each tooling entry in order, one item per
/// spelling that the entry's surface policy selects (the stable spellings
/// or the admitted ones) for its semantic identity.
pub open spec fn semantic_items_spec(
    tooling: Seq<ToolingSpec>,
    stable: Seq<(Seq<char>, Seq<char>)>,
    admitted: Seq<(Seq<char>, Seq<char>)>,
) -> Seq<ItemSpec>
    decreases tooling.len(),
{
    if tooling.len() == 0 {
        Seq::empty()
    } else {
        let t = tooling.last();
        let rel = match t.surface_policy {
            SurfacePolicy::Stable => stable,
            SurfacePolicy::Admitted => admitted,
        };
        semantic_items_spec(tooling.drop_last(), stable, admitted) + items_of(
            t,
            names_for(rel, t.semantic_id),
        )
    }
}

/// The syntax-form language items, given the registry's stable and admitted
/// spellings as (semantic id, spelling) pairs.
pub fn semantic_language_items_with(
    stable: &Vec<(String, String)>,
    admitted: &Vec<(String, String)>,
) -> (r: Vec<LanguageItem>)
    ensures
        items_view(r@) == semantic_items_spec(
            semantic_tooling_spec(),
            pairs_of(stable@),
            pairs_of(admitted@),
        ),
{
    let tooling = semantic_tooling();
    let ghost ts = Seq::new(tooling@.len(), |i: int| tooling@[i]@);
    let ghost sv = pairs_of(stable@);
    let ghost av = pairs_of(admitted@);
    let mut out: Vec<LanguageItem> = Vec::new();
    let mut i: usize = 0;
    proof {
        assert(ts.take(0) =~= Seq::<ToolingSpec>::empty());
        assert(items_view(out@) =~= Seq::<ItemSpec>::empty());
    }
    while i < tooling.len()
        invariant
            i <= tooling@.len(),
            ts == Seq::new(tooling@.len(), |i: int| tooling@[i]@),
            ts == semantic_tooling_spec(),
            sv == pairs_of(stable@),
            av == pairs_of(admitted@),
            items_view(out@) == semantic_items_spec(ts.take(i as int), sv, av),
        decreases tooling.len() - i,
    {
        let t = tooling[i];
        let rel = match t.surface_policy {
            SurfacePolicy::Stable => stable,
            SurfacePolicy::Admitted => admitted,
        };
        let ghost rv = pairs_of(rel@);
        let ghost before = items_view(out@);
        assert(ts[i as int] == t@);
        let mut j: usize = 0;
        proof {
            assert(rv.take(0) =~= Seq::<(Seq<char>, Seq<char>)>::empty());
            assert(before + items_of(t@, names_for(rv.take(0), t@.semantic_id)) =~= before);
        }
        while j < rel.len()
            invariant
                j <= rel@.len(),
                rv == pairs_of(rel@),
                items_view(out@) == before + items_of(t@, names_for(rv.take(j as int), t@.semantic_id)),
            decreases rel.len() - j,
        {
            let ghost ns = names_for(rv.take(j as int), t@.semantic_id);
            proof {
                assert(rv.take(j + 1).drop_last() =~= rv.take(j as int));
                assert(rv.take(j + 1).last() == rv[j as int]);
            }
            if string_eq(&rel[j].0, t.semantic_id) {
                let item = LanguageItem {
                    name: copy_string(&rel[j].1),
                    semantic_id: Some(t.semantic_id),
                    signature: t.signature,
                    documentation: t.documentation,
                    kind: t.kind,
                    arity: t.arity,
                };
                let ghost old_out = out@;
                out.push(item);
                proof {
                    assert(items_view(out@) =~= items_view(old_out).push(item@));
                    assert(items_of(t@, ns.push(rv[j as int].1)) =~= items_of(t@, ns).push(item@));
                    assert(before + items_of(t@, ns).push(item@) =~= (before + items_of(t@, ns)).push(item@));
                }
            }
            j += 1;
        }
        proof {
            assert(rv.take(rel@.len() as int) =~= rv);
            assert(ts.take(i + 1).drop_last() =~= ts.take(i as int));
            assert(ts.take(i + 1).last() == t@);
        }
        i += 1;
    }
    proof {
        assert(ts.take(tooling@.len() as int) =~= ts);
    }
    out
}

} // verus!
