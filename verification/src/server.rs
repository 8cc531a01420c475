//! The language server's dispatch: each decoded JSON-RPC message is mapped
//! onto the document analysis and answered with protocol text.
//!
//! The server keeps the full text of every open document and a workspace
//! index. Everything it answers is derived from the canonical reader: a
//! document that does not parse has no symbols, no definitions and no
//! references until it parses again.
use vstd::prelude::*;
use crate::analysis::{
    analyze, floor_boundary, builtin_docs, builtin_docs_spec, defs_of, floor_index, lookup_spec, position_to_offset,
    position_to_offset_spec, span_text, span_text_spec, spec_analyze, symbol_at_all, DefSpec,
};
use crate::json::spec_parse_json;
use crate::jsonout::{str_lit, str_lit_text};
use crate::protocol::{
    as_array, as_i64, as_str, decode, diagnostic, diagnostic_text, get, get_spec, i64_of, items_of,
    join, join_commas, opt_view, publish_diagnostics, publish_text, range_text, ref_view, response,
    response_text, span_to_range, str_of, texts_of, Incoming,
};
use crate::reader::spec_parse;
use crate::syntax::{Span, Syntax};
use crate::text::{
    decimal_digits, lemma_utf8_len_matches_encoding, owned, push_decimal, push_str, str_eq,
    string_eq, utf8_len,
};
use crate::value::{Data, Value};
use crate::workspace::{
    distinct_uris, lemma_set_text, lemma_text_in, named, pairs_view, put_text, set_text, text_in,
    indexed, updated, IndexView, WorkspaceDefSpec, WorkspaceIndex, SCAN_MAX_BYTES,
};
use crate::workspace::uri_path;

verus! {

pub const PARSE_ERROR: i64 = -32700;
pub const INVALID_REQUEST: i64 = -32600;
pub const METHOD_NOT_FOUND: i64 = -32601;
pub const INVALID_PARAMS: i64 = -32602;

/// The server: open documents (URI and full text, each URI once), the
/// workspace index, and a workspace root waiting to be scanned.
pub struct Server {
    documents: Vec<(String, String)>,
    workspace: WorkspaceIndex,
    pending_root: Option<String>,
}

pub struct ServerView {
    pub documents: Seq<(Seq<char>, Seq<char>)>,
    pub index: IndexView,
    pub pending_root: Option<Seq<char>>,
}

/// Every text the server holds fits the editor's 32-bit positions.
pub open spec fn texts_fit(texts: Seq<(Seq<char>, Seq<char>)>) -> bool {
    forall|k: int| 0 <= k < texts.len() ==> utf8_len(#[trigger] texts[k].1) <= u32::MAX
}

// ---------------------------------------------------------------------------
// Reading requests
// ---------------------------------------------------------------------------

/// The `textDocument` parameter.
pub open spec fn td_of(params: Option<Data>) -> Option<Data> {
    match params {
        Some(p) => get_spec(p, "textDocument"@),
        None => None,
    }
}

/// The document URI a request names.
pub open spec fn uri_of(params: Option<Data>) -> Option<Seq<char>> {
    match td_of(params) {
        Some(td) => str_of(get_spec(td, "uri"@)),
        None => None,
    }
}

/// The URI of the document a request names and its text, if it is open.
pub open spec fn uri_and_text(params: Option<Data>, docs: Seq<(Seq<char>, Seq<char>)>) -> Option<
    (Seq<char>, Seq<char>),
> {
    match uri_of(params) {
        Some(u) => match text_in(docs, u) {
            Some(t) => Some((u, t)),
            None => None,
        },
        None => None,
    }
}

/// A position coordinate: the integer given, clamped below at 0 and
/// truncated to 32 bits; 0 where it is missing.
pub open spec fn coordinate(d: Option<Data>) -> u32 {
    match i64_of(d) {
        Some(n) => (if n < 0 {
            0
        } else {
            n
        }) as u32,
        None => 0,
    }
}

/// The byte offset of the request's cursor in `t`; past every byte where the
/// request has no position.
pub open spec fn cursor_offset(params: Option<Data>, t: Seq<char>) -> int {
    match params {
        Some(p) => match get_spec(p, "position"@) {
            Some(pos) => position_to_offset_spec(
                t,
                coordinate(get_spec(pos, "line"@)) as nat,
                coordinate(get_spec(pos, "character"@)) as nat,
            ) as int,
            None => usize::MAX as int,
        },
        None => usize::MAX as int,
    }
}

pub open spec fn null_response(id: Option<Data>) -> Seq<char> {
    response_text(id, Some("null"@), None)
}

pub open spec fn result_response(id: Option<Data>, result: Seq<char>) -> Seq<char> {
    response_text(id, Some(result), None)
}

// ---------------------------------------------------------------------------
// Answers
// ---------------------------------------------------------------------------

/// The capabilities announced on `initialize`.
pub open spec fn initialize_result() -> Seq<char> {
    "{\"capabilities\":{\"textDocumentSync\":1,\"documentSymbolProvider\":true,\"hoverProvider\":true,\"definitionProvider\":true,\"completionProvider\":{\"resolveProvider\":false},\"referencesProvider\":true,\"renameProvider\":true},\"serverInfo\":{\"name\":\"my-lisp-lsp\",\"version\":\"0.1.0\"}}"@
}

/// The diagnostics of document `uri`: one for a parse error, none otherwise.
pub open spec fn diagnostics_of(docs: Seq<(Seq<char>, Seq<char>)>, uri: Seq<char>) -> Seq<Seq<char>> {
    match text_in(docs, uri) {
        Some(t) => match spec_analyze(t) {
            Ok(_) => Seq::empty(),
            Err(e) => seq![diagnostic_text(t, e.message, e.span.start as int, e.span.end as int)],
        },
        None => Seq::empty(),
    }
}

pub open spec fn publish_spec(docs: Seq<(Seq<char>, Seq<char>)>, uri: Seq<char>) -> Seq<char> {
    publish_text(uri, diagnostics_of(docs, uri))
}

/// One document symbol: a definition with its form's and its name's ranges.
pub open spec fn symbol_entry(t: Seq<char>, d: DefSpec) -> Seq<char> {
    "{\"name\":"@ + str_lit_text(d.name) + ",\"detail\":"@ + str_lit_text(d.kind)
        + ",\"kind\":12,\"range\":"@ + range_text(t, d.form_span.start as int, d.form_span.end as int)
        + ",\"selectionRange\":"@ + range_text(t, d.name_span.start as int, d.name_span.end as int)
        + ",\"children\":[]}"@
}

pub open spec fn symbols_result(t: Seq<char>) -> Seq<char> {
    match spec_analyze(t) {
        Ok(ds) => "["@ + join_commas(Seq::new(ds.len(), |i: int| symbol_entry(t, ds[i]))) + "]"@,
        Err(_) => "[]"@,
    }
}

pub open spec fn document_symbols_spec(
    id: Option<Data>,
    params: Option<Data>,
    docs: Seq<(Seq<char>, Seq<char>)>,
) -> Seq<char> {
    match uri_and_text(params, docs) {
        Some((_, t)) => result_response(id, symbols_result(t)),
        None => null_response(id),
    }
}

/// A hover answer showing the markdown `value` over `range`.
pub open spec fn hover_json(value: Seq<char>, range: Seq<char>) -> Seq<char> {
    "{\"contents\":{\"kind\":\"markdown\",\"value\":"@ + str_lit_text(value) + "},\"range\":"@ + range
        + "}"@
}

/// The hover text of a local definition: kind, name, location and source.
pub open spec fn local_hover_text(t: Seq<char>, d: DefSpec) -> Seq<char> {
    "**"@ + d.kind + "** `"@ + d.name + "`\n\nDefined locally at bytes "@ + decimal_digits(
        d.name_span.start as nat,
    ) + ".."@ + decimal_digits(d.name_span.end as nat) + "\n\n```my-lisp\n"@ + span_text_spec(
        t,
        d.form_span,
    ) + "\n```"@
}

/// Hover: a local definition of the symbol under the cursor wins, then the
/// builtin documentation; otherwise there is nothing to show.
pub open spec fn hover_spec(id: Option<Data>, params: Option<Data>, docs: Seq<(Seq<char>, Seq<char>)>) -> Seq<
    char,
> {
    match uri_and_text(params, docs) {
        None => null_response(id),
        Some((_, t)) => match spec_parse(t) {
            Err(_) => null_response(id),
            Ok(xs) => match symbol_at_all(xs, cursor_offset(params, t)) {
                None => null_response(id),
                Some((sym, sspan)) => match lookup_spec(defs_of(xs), sym) {
                    Some(k) => result_response(
                        id,
                        hover_json(
                            local_hover_text(t, defs_of(xs)[k]),
                            range_text(t, sspan.start as int, sspan.end as int),
                        ),
                    ),
                    None => match builtin_docs_spec(sym) {
                        Some(doc) => result_response(
                            id,
                            hover_json(
                                "**builtin** `"@ + sym + "`\n\n"@ + doc,
                                range_text(t, sspan.start as int, sspan.end as int),
                            ),
                        ),
                        None => null_response(id),
                    },
                },
            },
        },
    }
}

/// A location: a document URI and a byte range of its text.
pub open spec fn location_text(uri: Seq<char>, t: Seq<char>, span: Span) -> Seq<char> {
    "{\"uri\":"@ + str_lit_text(uri) + ",\"range\":"@ + range_text(t, span.start as int, span.end as int)
        + "}"@
}

/// Definition: the last local definition of the symbol under the cursor,
/// else the first workspace definition of it in a known document.
pub open spec fn definition_spec(id: Option<Data>, params: Option<Data>, st: ServerView) -> Seq<char> {
    match uri_and_text(params, st.documents) {
        None => null_response(id),
        Some((u, t)) => match spec_parse(t) {
            Err(_) => null_response(id),
            Ok(xs) => match symbol_at_all(xs, cursor_offset(params, t)) {
                None => null_response(id),
                Some((sym, _)) => match lookup_spec(defs_of(xs), sym) {
                    Some(k) => result_response(id, location_text(u, t, defs_of(xs)[k].name_span)),
                    None => {
                        let found = st.index.defs.filter(named(sym));
                        if found.len() > 0 {
                            match text_in(st.index.texts, found[0].uri) {
                                Some(dt) => result_response(
                                    id,
                                    location_text(found[0].uri, dt, found[0].name_span),
                                ),
                                None => null_response(id),
                            }
                        } else {
                            null_response(id)
                        }
                    },
                },
            },
        },
    }
}

// ---------------------------------------------------------------------------
// Completion
// ---------------------------------------------------------------------------

/// The builtin names offered by completion: the core forms and every
/// builtin that the runtime installs.
pub open spec fn builtin_names() -> Seq<Seq<char>> {
    seq!["+"@, "-"@, "/"@, "<"@, "="@, ">"@, "atom"@, "car"@, "cdr"@, "cond"@, "cons"@, "def"@, "defmacro"@, "eq"@, "eval"@, "json-parse"@, "lambda"@, "princ"@, "print"@, "quote"@, "read"@, "read-all"@, "sha256-hex"@, "string->symbol"@, "string-append"@, "string-first"@, "string-rest"@, "string<?"@, "string?"@, "symbol->string"@, "write-to-string"@, "abs"@, "min-list"@, "max-list"@, "min"@, "max"@, "make-vector"@, "vector"@, "mono-ns"@, "utc-now"@, "internet-time-sync"@, "timezone-detect"@, "vector-length"@, "vector-ref"@, "vector-set!"@, "i32-buffer"@, "f32-buffer"@, "string-slice"@, "numeric-buffer?"@, "numeric-buffer-type"@, "numeric-buffer-length"@, "numeric-buffer-ref"@, "numeric-buffer-map"@, "env"@]
}

fn builtin_name_list() -> (r: Vec<&'static str>)
    ensures
        Seq::new(r@.len(), |i: int| r@[i]@) == builtin_names(),
{
    let v = vec!["+", "-", "/", "<", "=", ">", "atom", "car", "cdr", "cond", "cons", "def", "defmacro", "eq", "eval", "json-parse", "lambda", "princ", "print", "quote", "read", "read-all", "sha256-hex", "string->symbol", "string-append", "string-first", "string-rest", "string<?", "string?", "symbol->string", "write-to-string", "abs", "min-list", "max-list", "min", "max", "make-vector", "vector", "mono-ns", "utc-now", "internet-time-sync", "timezone-detect", "vector-length", "vector-ref", "vector-set!", "i32-buffer", "f32-buffer", "string-slice", "numeric-buffer?", "numeric-buffer-type", "numeric-buffer-length", "numeric-buffer-ref", "numeric-buffer-map", "env"];
    proof {
        assert(Seq::new(v@.len(), |i: int| v@[i]@) =~= builtin_names());
    }
    v
}

/// Whether `c` may occur in a symbol name: ASCII letters and digits and `-_<>?!+*/=.`.
pub open spec fn is_symbol_char(c: char) -> bool {
    ('a' <= c <= 'z') || ('A' <= c <= 'Z') || ('0' <= c <= '9') || c == '-' || c == '_' || c == '<'
        || c == '>' || c == '?' || c == '!' || c == '+' || c == '*' || c == '/' || c == '=' || c == '.'
}

pub fn is_symbol_char_exec(c: char) -> (r: bool)
    ensures
        r == is_symbol_char(c),
{
    ('a' <= c && c <= 'z') || ('A' <= c && c <= 'Z') || ('0' <= c && c <= '9') || c == '-' || c
        == '_' || c == '<' || c == '>' || c == '?' || c == '!' || c == '+' || c == '*' || c == '/'
        || c == '=' || c == '.'
}

/// Start of the run of symbol characters that ends at character index `e`.
pub open spec fn symbol_run_start(t: Seq<char>, e: int) -> int
    decreases e,
{
    if e <= 0 || e > t.len() {
        e
    } else if is_symbol_char(t[e - 1]) {
        symbol_run_start(t, e - 1)
    } else {
        e
    }
}

/// The symbol characters just before the cursor, which filter completion.
pub open spec fn completion_prefix(t: Seq<char>, offset: int) -> Seq<char> {
    let e = floor_index(t, if offset < utf8_len(t) { offset } else { utf8_len(t) as int }, 0);
    t.subrange(symbol_run_start(t, e), e)
}

/// After the last `/` of a URI: the file name shown in completion details.
pub open spec fn after_last_slash(u: Seq<char>, i: int) -> int
    decreases i,
{
    if i <= 0 || i > u.len() {
        0
    } else if u[i - 1] == '/' {
        i
    } else {
        after_last_slash(u, i - 1)
    }
}

pub open spec fn file_name_of(u: Seq<char>) -> Seq<char> {
    u.subrange(after_last_slash(u, u.len() as int), u.len() as int)
}

/// The detail of the first of `ds` that defines `n`, if any.
pub open spec fn local_detail(ds: Seq<DefSpec>, n: Seq<char>) -> Option<Seq<char>>
    decreases ds.len(),
{
    if ds.len() == 0 {
        None
    } else if ds[0].name == n {
        Some("local "@ + ds[0].kind)
    } else {
        local_detail(ds.drop_first(), n)
    }
}

/// How completion offers the builtin `n` in document `t`: a definition of
/// the same name in the document shadows it, and its detail is shown.
pub open spec fn builtin_candidate(t: Seq<char>, n: Seq<char>) -> (Seq<char>, Seq<char>) {
    match spec_analyze(t) {
        Ok(ds) => match local_detail(ds, n) {
            Some(d) => (n, d),
            None => (n, "builtin"@),
        },
        Err(_) => (n, "builtin"@),
    }
}

/// What completion may offer, in order: builtins (each shadowed by a
/// definition of the document with the same name), the document's own
/// definitions, then the workspace's.
pub open spec fn completion_candidates(t: Seq<char>, index: IndexView) -> Seq<(Seq<char>, Seq<char>)> {
    Seq::new(builtin_names().len(), |i: int| builtin_candidate(t, builtin_names()[i])) + match spec_analyze(t) {
        Ok(ds) => Seq::new(ds.len(), |i: int| (ds[i].name, "local "@ + ds[i].kind)),
        Err(_) => Seq::empty(),
    } + Seq::new(
        index.defs.len(),
        |i: int| (index.defs[i].name, index.defs[i].kind + " ("@ + file_name_of(index.defs[i].uri) + ")"@),
    )
}

pub open spec fn labels(items: Seq<(Seq<char>, Seq<char>)>) -> Seq<Seq<char>> {
    Seq::new(items.len(), |i: int| items[i].0)
}

/// The candidates whose label extends the prefix (any, for an empty
/// prefix), each label offered once, first occurrence first.
pub open spec fn picked(cands: Seq<(Seq<char>, Seq<char>)>, prefix: Seq<char>) -> Seq<(Seq<char>, Seq<char>)>
    decreases cands.len(),
{
    if cands.len() == 0 {
        Seq::empty()
    } else {
        let prev = picked(cands.drop_last(), prefix);
        let c = cands.last();
        if (prefix.len() > 0 && !prefix.is_prefix_of(c.0)) || labels(prev).contains(c.0) {
            prev
        } else {
            prev.push(c)
        }
    }
}

pub open spec fn completion_item(c: (Seq<char>, Seq<char>)) -> Seq<char> {
    "{\"label\":"@ + str_lit_text(c.0) + ",\"kind\":3,\"detail\":"@ + str_lit_text(c.1) + "}"@
}

pub open spec fn completion_result(items: Seq<(Seq<char>, Seq<char>)>) -> Seq<char> {
    "{\"isIncomplete\":false,\"items\":["@ + join_commas(
        Seq::new(items.len(), |i: int| completion_item(items[i])),
    ) + "]}"@
}

pub open spec fn completion_spec(id: Option<Data>, params: Option<Data>, st: ServerView) -> Seq<char> {
    match uri_and_text(params, st.documents) {
        None => result_response(id, "[]"@),
        Some((_, t)) => result_response(
            id,
            completion_result(
                picked(completion_candidates(t, st.index), completion_prefix(t, cursor_offset(params, t))),
            ),
        ),
    }
}

// ---------------------------------------------------------------------------
// References and rename
// ---------------------------------------------------------------------------

/// Whether the request asks for declarations to count as references.
pub open spec fn include_declaration(params: Option<Data>) -> bool {
    match params {
        Some(p) => match get_spec(p, "context"@) {
            Some(c) => match get_spec(c, "includeDeclaration"@) {
                Some(Data::Bool(b)) => b,
                Some(Data::Sym(n)) => n == "true"@,
                _ => false,
            },
            None => false,
        },
        None => false,
    }
}

/// Where the definitions of `sym` in a parsed document put their names.
pub open spec fn declaration_starts(ds: Seq<DefSpec>, sym: Seq<char>) -> Seq<usize>
    decreases ds.len(),
{
    if ds.len() == 0 {
        Seq::empty()
    } else {
        declaration_starts(ds.drop_last(), sym) + if ds.last().name == sym {
            seq![ds.last().name_span.start]
        } else {
            Seq::empty()
        }
    }
}

/// Locations gathered so far, with the (URI, start) keys already used.
pub struct RefAcc {
    pub keys: Seq<(Seq<char>, usize)>,
    pub locs: Seq<Seq<char>>,
}

/// The occurrences `occs` of document `u` added to `acc`: those of `sym`,
/// minus declarations unless included, each (URI, start) once.
pub open spec fn refs_fold(
    u: Seq<char>,
    t: Seq<char>,
    sym: Seq<char>,
    incl: bool,
    decls: Seq<usize>,
    occs: Seq<crate::analysis::OccurrenceSpec>,
    acc: RefAcc,
) -> RefAcc
    decreases occs.len(),
{
    if occs.len() == 0 {
        acc
    } else {
        let a = refs_fold(u, t, sym, incl, decls, occs.drop_last(), acc);
        let o = occs.last();
        if o.name != sym || (!incl && decls.contains(o.span.start)) || a.keys.contains(
            (u, o.span.start),
        ) {
            a
        } else {
            RefAcc { keys: a.keys.push((u, o.span.start)), locs: a.locs.push(location_text(u, t, o.span)) }
        }
    }
}

/// Whether an occurrence is a reference to `sym` that the request reports:
/// declarations count only when they are included.
pub open spec fn reported(o: crate::analysis::OccurrenceSpec, sym: Seq<char>, incl: bool, decls: Seq<usize>) -> bool {
    o.name == sym && (incl || !decls.contains(o.span.start))
}

/// Whether `k` is the (URI, start) key of a reported occurrence.
pub open spec fn reported_key(
    occs: Seq<crate::analysis::OccurrenceSpec>,
    u: Seq<char>,
    sym: Seq<char>,
    incl: bool,
    decls: Seq<usize>,
    k: (Seq<char>, usize),
) -> bool {
    exists|i: int|
        0 <= i < occs.len() && reported(#[trigger] occs[i], sym, incl, decls) && k == (u, occs[i].span.start)
}

proof fn lemma_reported_key_last(
    occs: Seq<crate::analysis::OccurrenceSpec>,
    u: Seq<char>,
    sym: Seq<char>,
    incl: bool,
    decls: Seq<usize>,
    k: (Seq<char>, usize),
)
    requires
        occs.len() > 0,
    ensures
        reported_key(occs, u, sym, incl, decls, k) <==> (reported_key(occs.drop_last(), u, sym, incl, decls, k)
            || (reported(occs.last(), sym, incl, decls) && k == (u, occs.last().span.start))),
{
    let prev = occs.drop_last();
    if reported_key(occs, u, sym, incl, decls, k) {
        let i = choose|i: int|
            0 <= i < occs.len() && reported(#[trigger] occs[i], sym, incl, decls) && k == (u, occs[i].span.start);
        if i < prev.len() {
            assert(prev[i] == occs[i]);
        }
    }
    if reported_key(prev, u, sym, incl, decls, k) {
        let i = choose|i: int|
            0 <= i < prev.len() && reported(#[trigger] prev[i], sym, incl, decls) && k == (u, prev[i].span.start);
        assert(prev[i] == occs[i]);
    }
}

/// Law: the references gathered in one document are exactly the reported
/// occurrences of the symbol, each start once, with one location per key.
pub proof fn law_references_in_document(
    u: Seq<char>,
    t: Seq<char>,
    sym: Seq<char>,
    incl: bool,
    decls: Seq<usize>,
    occs: Seq<crate::analysis::OccurrenceSpec>,
)
    ensures
        ({
            let r = refs_fold(u, t, sym, incl, decls, occs, RefAcc { keys: Seq::empty(), locs: Seq::empty() });
            &&& r.keys.no_duplicates()
            &&& r.locs.len() == r.keys.len()
            &&& forall|k: (Seq<char>, usize)| r.keys.contains(k) <==> reported_key(occs, u, sym, incl, decls, k)
        }),
    decreases occs.len(),
{
    let e = RefAcc { keys: Seq::empty(), locs: Seq::empty() };
    let r = refs_fold(u, t, sym, incl, decls, occs, e);
    if occs.len() > 0 {
        let prev = occs.drop_last();
        law_references_in_document(u, t, sym, incl, decls, prev);
        let a = refs_fold(u, t, sym, incl, decls, prev, e);
        let o = occs.last();
        let key = (u, o.span.start);
        assert forall|k: (Seq<char>, usize)| r.keys.contains(k) <==> reported_key(occs, u, sym, incl, decls, k) by {
            lemma_reported_key_last(occs, u, sym, incl, decls, k);
            if r.keys.contains(k) && !a.keys.contains(k) {
                let j = choose|j: int| 0 <= j < r.keys.len() && r.keys[j] == k;
                if j < a.keys.len() {
                    assert(a.keys[j] == k);
                }
            }
            if a.keys.contains(k) && r.keys != a.keys {
                let j = choose|j: int| 0 <= j < a.keys.len() && a.keys[j] == k;
                assert(r.keys[j] == k);
            }
            if k == key && r.keys != a.keys {
                assert(r.keys[r.keys.len() - 1] == key);
            }
        }
        if r.keys != a.keys {
            assert(r.keys.no_duplicates()) by {
                assert forall|x: int, y: int| 0 <= x < r.keys.len() && 0 <= y < r.keys.len() && x != y implies r.keys[x] != r.keys[y] by {
                    if x == a.keys.len() && y < a.keys.len() {
                        assert(a.keys.contains(a.keys[y]));
                    } else if y == a.keys.len() && x < a.keys.len() {
                        assert(a.keys.contains(a.keys[x]));
                    }
                }
            }
        }
    }
}

/// `acc` with the references of `sym` in document `u`; a document that does
/// not parse adds none.
pub open spec fn refs_in_doc(acc: RefAcc, u: Seq<char>, t: Seq<char>, sym: Seq<char>, incl: bool) -> RefAcc {
    match spec_parse(t) {
        Ok(xs) => refs_fold(
            u,
            t,
            sym,
            incl,
            if incl {
                Seq::empty()
            } else {
                declaration_starts(defs_of(xs), sym)
            },
            crate::analysis::occurrences_all(xs),
            acc,
        ),
        Err(_) => acc,
    }
}

/// `acc` with the references in the workspace documents `docs` other than `u`.
pub open spec fn refs_in_docs(
    acc: RefAcc,
    docs: Seq<(Seq<char>, Seq<char>)>,
    u: Seq<char>,
    sym: Seq<char>,
    incl: bool,
) -> RefAcc
    decreases docs.len(),
{
    if docs.len() == 0 {
        acc
    } else {
        let a = refs_in_docs(acc, docs.drop_last(), u, sym, incl);
        if docs.last().0 == u {
            a
        } else {
            refs_in_doc(a, docs.last().0, docs.last().1, sym, incl)
        }
    }
}

/// References: every code occurrence of the symbol under the cursor, in the
/// document first and then across the workspace.
pub open spec fn references_spec(id: Option<Data>, params: Option<Data>, st: ServerView) -> Seq<char> {
    match uri_and_text(params, st.documents) {
        None => result_response(id, "[]"@),
        Some((u, t)) => match spec_parse(t) {
            Err(_) => result_response(id, "[]"@),
            Ok(xs) => match symbol_at_all(xs, cursor_offset(params, t)) {
                None => result_response(id, "[]"@),
                Some((sym, _)) => {
                    let incl = include_declaration(params);
                    let a = refs_in_doc(RefAcc { keys: Seq::empty(), locs: Seq::empty() }, u, t, sym, incl);
                    let b = refs_in_docs(a, st.index.texts, u, sym, incl);
                    result_response(id, "["@ + join_commas(b.locs) + "]"@)
                },
            },
        },
    }
}

/// Whether `n` is a valid symbol name: non-empty, symbol characters only,
/// not starting with a digit.
pub open spec fn valid_symbol_name(n: Seq<char>) -> bool {
    n.len() > 0 && (forall|i: int| 0 <= i < n.len() ==> is_symbol_char(#[trigger] n[i])) && !(
    '0' <= n[0] <= '9')
}

pub open spec fn edit_text(t: Seq<char>, span: Span, new_name: Seq<char>) -> Seq<char> {
    "{\"range\":"@ + range_text(t, span.start as int, span.end as int) + ",\"newText\":"@ + str_lit_text(
        new_name,
    ) + "}"@
}

/// The edits renaming the occurrences of `sym` among `occs`.
pub open spec fn edits_of(
    t: Seq<char>,
    occs: Seq<crate::analysis::OccurrenceSpec>,
    sym: Seq<char>,
    new_name: Seq<char>,
) -> Seq<Seq<char>>
    decreases occs.len(),
{
    if occs.len() == 0 {
        Seq::empty()
    } else {
        edits_of(t, occs.drop_last(), sym, new_name) + if occs.last().name == sym {
            seq![edit_text(t, occs.last().span, new_name)]
        } else {
            Seq::empty()
        }
    }
}

/// `changes` with document `u`'s edits, if it has any.
pub open spec fn with_doc_edits(
    changes: Seq<Seq<char>>,
    u: Seq<char>,
    t: Seq<char>,
    sym: Seq<char>,
    new_name: Seq<char>,
) -> Seq<Seq<char>> {
    match spec_parse(t) {
        Ok(xs) => {
            let edits = edits_of(t, crate::analysis::occurrences_all(xs), sym, new_name);
            if edits.len() > 0 {
                changes.push(str_lit_text(u) + ":["@ + join_commas(edits) + "]"@)
            } else {
                changes
            }
        },
        Err(_) => changes,
    }
}

pub open spec fn edits_in_docs(
    changes: Seq<Seq<char>>,
    docs: Seq<(Seq<char>, Seq<char>)>,
    u: Seq<char>,
    sym: Seq<char>,
    new_name: Seq<char>,
) -> Seq<Seq<char>>
    decreases docs.len(),
{
    if docs.len() == 0 {
        changes
    } else {
        let c = edits_in_docs(changes, docs.drop_last(), u, sym, new_name);
        if docs.last().0 == u {
            c
        } else {
            with_doc_edits(c, docs.last().0, docs.last().1, sym, new_name)
        }
    }
}

pub open spec fn error_response(id: Option<Data>, code: int, message: Seq<char>) -> Seq<char> {
    response_text(id, None, Some((code, message)))
}

/// Rename: every code occurrence of the symbol under the cursor, in the
/// document and across the workspace, replaced by a valid new name.
pub open spec fn rename_spec(id: Option<Data>, params: Option<Data>, st: ServerView) -> Seq<char> {
    let new_name = match params {
        Some(p) => str_of(get_spec(p, "newName"@)),
        None => None,
    };
    match new_name {
        None => error_response(id, INVALID_PARAMS as int, "rename requires newName"@),
        Some(n) => if !valid_symbol_name(n) {
            error_response(id, INVALID_PARAMS as int, "invalid symbol name: "@ + n)
        } else {
            match uri_and_text(params, st.documents) {
                None => null_response(id),
                Some((u, t)) => match spec_parse(t) {
                    Err(_) => null_response(id),
                    Ok(xs) => match symbol_at_all(xs, cursor_offset(params, t)) {
                        None => null_response(id),
                        Some((sym, _)) => {
                            let c0 = with_doc_edits(Seq::empty(), u, t, sym, n);
                            let c = edits_in_docs(c0, st.index.texts, u, sym, n);
                            result_response(id, "{\"changes\":{"@ + join_commas(c) + "}}"@)
                        },
                    },
                },
            }
        },
    }
}


// ---------------------------------------------------------------------------
// The server
// ---------------------------------------------------------------------------

/// Whether `text` fits the editor's 32-bit positions.
fn fits_positions(text: &str) -> (r: bool)
    ensures
        r == (utf8_len(text@) <= u32::MAX),
{
    proof {
        lemma_utf8_len_matches_encoding(text@);
    }
    let bytes = text.as_bytes();
    bytes.len() <= 4294967295
}

fn doc_text_of<'a>(docs: &'a Vec<(String, String)>, uri: &str) -> (r: Option<&'a String>)
    requires
        distinct_uris(pairs_view(docs@)),
    ensures
        match r {
            Some(t) => text_in(pairs_view(docs@), uri@) == Some(t@),
            None => text_in(pairs_view(docs@), uri@) is None,
        },
{
    let mut i: usize = 0;
    while i < docs.len()
        invariant
            i <= docs@.len(),
            distinct_uris(pairs_view(docs@)),
            forall|k: int| 0 <= k < i ==> pairs_view(docs@)[k].0 != uri@,
        decreases docs.len() - i,
    {
        if string_eq(&docs[i].0, uri) {
            proof {
                lemma_text_in(pairs_view(docs@), i as int);
            }
            return Some(&docs[i].1);
        }
        i += 1;
    }
    None
}

fn td_exec(params: &Option<Value>) -> (r: Option<&Value>)
    ensures
        ref_view(r) == td_of(opt_view(*params)),
{
    match params {
        Some(p) => get(p, "textDocument"),
        None => None,
    }
}

fn uri_exec(params: &Option<Value>) -> (r: Option<&str>)
    ensures
        match r {
            Some(u) => uri_of(opt_view(*params)) == Some(u@),
            None => uri_of(opt_view(*params)) is None,
        },
{
    match td_exec(params) {
        Some(td) => as_str(get(td, "uri")),
        None => None,
    }
}

fn coordinate_exec(v: Option<&Value>) -> (r: u32)
    ensures
        r == coordinate(ref_view(v)),
{
    let n: i64 = match as_i64(v) {
        Some(n) => n,
        None => {
            return 0;
        },
    };
    let m: i64 = if n < 0 {
        0
    } else {
        n
    };
    m as u32
}

fn cursor_offset_exec(params: &Option<Value>, text: &str) -> (r: usize)
    ensures
        r as int == cursor_offset(opt_view(*params), text@),
{
    let p = match params {
        Some(p) => p,
        None => {
            return usize::MAX;
        },
    };
    match get(p, "position") {
        Some(pos) => {
            let line = coordinate_exec(get(pos, "line"));
            let character = coordinate_exec(get(pos, "character"));
            position_to_offset(text, line, character)
        },
        None => usize::MAX,
    }
}

fn null_response_exec(id: &Option<Value>) -> (r: String)
    ensures
        r@ == null_response(opt_view(*id)),
{
    response(id, Some(owned("null")), None)
}

fn result_response_exec(id: &Option<Value>, result: String) -> (r: String)
    ensures
        r@ == result_response(opt_view(*id), result@),
{
    response(id, Some(result), None)
}

impl Server {
    pub closed spec fn view(&self) -> ServerView {
        ServerView {
            documents: pairs_view(self.documents@),
            index: self.workspace@,
            pending_root: match self.pending_root {
                Some(r) => Some(r@),
                None => None,
            },
        }
    }

    /// The server's invariant: each document once, a well-formed index, and
    /// every text within the editor's 32-bit positions.
    pub closed spec fn wf(&self) -> bool {
        &&& distinct_uris(self@.documents)
        &&& texts_fit(self@.documents)
        &&& self.workspace.wf()
        &&& texts_fit(self@.index.texts)
    }

    /// A server with no documents and an empty index.
    pub fn new() -> (r: Server)
        ensures
            r.wf(),
            r@.documents.len() == 0,
            r@.index.texts.len() == 0,
            r@.index.defs.len() == 0,
            r@.index.root is None,
            r@.pending_root is None,
    {
        let r = Server { documents: Vec::new(), workspace: WorkspaceIndex::new(), pending_root: None };
        proof {
            assert(r@.documents =~= Seq::<(Seq<char>, Seq<char>)>::empty());
        }
        r
    }

    fn uri_and_text_exec<'a>(&'a self, params: &'a Option<Value>) -> (r: Option<(&'a str, &'a String)>)
        requires
            self.wf(),
        ensures
            match r {
                Some((u, t)) => uri_and_text(opt_view(*params), self@.documents) == Some((u@, t@)),
                None => uri_and_text(opt_view(*params), self@.documents) is None,
            },
    {
        let u = match uri_exec(params) {
            Some(u) => u,
            None => {
                return None;
            },
        };
        match doc_text_of(&self.documents, u) {
            Some(t) => Some((u, t)),
            None => None,
        }
    }

    /// The text of an open document, with its fit to 32-bit positions.
    fn doc_fits(&self, uri: &str) -> (r: Option<&String>)
        requires
            self.wf(),
        ensures
            match r {
                Some(t) => text_in(self@.documents, uri@) == Some(t@) && utf8_len(t@) <= u32::MAX,
                None => text_in(self@.documents, uri@) is None,
            },
    {
        let r = doc_text_of(&self.documents, uri);
        proof {
            if r is Some {
                let docs = self@.documents;
                let k = choose|k: int| 0 <= k < docs.len() && docs[k].0 == uri@;
                assert(texts_fit(docs));
                assert(utf8_len(docs[k].1) <= u32::MAX);
            }
        }
        r
    }
}


fn symbol_entry_exec(t: &str, d: &crate::analysis::DefInfo) -> (r: String)
    requires
        utf8_len(t@) <= u32::MAX,
    ensures
        r@ == symbol_entry(t@, d@),
{
    let mut out = String::new();
    push_str(&mut out, "{\"name\":");
    push_str(&mut out, str_lit(d.name.as_str()).as_str());
    push_str(&mut out, ",\"detail\":");
    push_str(&mut out, str_lit(d.kind.as_str()).as_str());
    push_str(&mut out, ",\"kind\":12,\"range\":");
    push_str(&mut out, span_to_range(t, d.form_span.start, d.form_span.end).as_str());
    push_str(&mut out, ",\"selectionRange\":");
    push_str(&mut out, span_to_range(t, d.name_span.start, d.name_span.end).as_str());
    push_str(&mut out, ",\"children\":[]}");
    proof {
        assert(out@ =~= symbol_entry(t@, d@));
    }
    out
}

fn hover_json_exec(value: &str, range: &str) -> (r: String)
    ensures
        r@ == hover_json(value@, range@),
{
    let mut out = String::new();
    push_str(&mut out, "{\"contents\":{\"kind\":\"markdown\",\"value\":");
    push_str(&mut out, str_lit(value).as_str());
    push_str(&mut out, "},\"range\":");
    push_str(&mut out, range);
    push_str(&mut out, "}");
    proof {
        assert(out@ =~= hover_json(value@, range@));
    }
    out
}

fn location_exec(uri: &str, t: &str, span: Span) -> (r: String)
    requires
        utf8_len(t@) <= u32::MAX,
    ensures
        r@ == location_text(uri@, t@, span),
{
    let mut out = String::new();
    push_str(&mut out, "{\"uri\":");
    push_str(&mut out, str_lit(uri).as_str());
    push_str(&mut out, ",\"range\":");
    push_str(&mut out, span_to_range(t, span.start, span.end).as_str());
    push_str(&mut out, "}");
    proof {
        assert(out@ =~= location_text(uri@, t@, span));
    }
    out
}

impl Server {
    /// The diagnostics notification of document `uri`.
    fn publish(&self, uri: &str) -> (r: String)
        requires
            self.wf(),
        ensures
            r@ == publish_spec(self@.documents, uri@),
    {
        let mut diagnostics: Vec<String> = Vec::new();
        match self.doc_fits(uri) {
            Some(text) => match analyze(text.as_str()) {
                Ok(_) => {},
                Err(err) => {
                    let d = diagnostic(text.as_str(), err.message.as_str(), err.span.start, err.span.end);
                    diagnostics.push(d);
                },
            },
            None => {},
        }
        proof {
            assert(texts_of(diagnostics@) =~= diagnostics_of(self@.documents, uri@));
        }
        publish_diagnostics(uri, diagnostics.as_slice())
    }

    fn document_symbols(&self, incoming: &Incoming) -> (r: String)
        requires
            self.wf(),
        ensures
            r@ == document_symbols_spec(opt_view(incoming.id), opt_view(incoming.params), self@.documents),
    {
        let (_uri, text) = match self.uri_and_text_exec(&incoming.params) {
            Some(p) => p,
            None => {
                return null_response_exec(&incoming.id);
            },
        };
        let t = self.doc_fits(_uri);
        let text = match t {
            Some(t) => t,
            None => {
                return null_response_exec(&incoming.id);
            },
        };
        let analysis = match analyze(text.as_str()) {
            Ok(a) => a,
            Err(_) => {
                return result_response_exec(&incoming.id, owned("[]"));
            },
        };
        let ghost ds = crate::analysis::def_views(analysis.defs@);
        let mut entries: Vec<String> = Vec::new();
        let mut i: usize = 0;
        while i < analysis.defs.len()
            invariant
                i <= analysis.defs@.len(),
                ds == crate::analysis::def_views(analysis.defs@),
                utf8_len(text@) <= u32::MAX,
                texts_of(entries@) == Seq::new(i as nat, |k: int| symbol_entry(text@, ds[k])),
            decreases analysis.defs.len() - i,
        {
            let e = symbol_entry_exec(text.as_str(), &analysis.defs[i]);
            let ghost before = texts_of(entries@);
            let ghost ep = entries@;
            let ghost ev = e@;
            entries.push(e);
            proof {
                assert(entries@ == ep.push(e));
                assert(ds[i as int] == analysis.defs@[i as int]@);
                assert(ev == symbol_entry(text@, ds[i as int]));
                assert(texts_of(entries@) =~= before.push(ev));
                assert(texts_of(entries@) =~= Seq::new((i + 1) as nat, |k: int| symbol_entry(text@, ds[k])));
            }
            i += 1;
        }
        let mut out = String::new();
        push_str(&mut out, "[");
        push_str(&mut out, join(entries.as_slice()).as_str());
        push_str(&mut out, "]");
        proof {
            assert(Seq::new(ds.len(), |k: int| symbol_entry(text@, ds[k])) =~= texts_of(entries@));
            assert(out@ =~= symbols_result(text@));
        }
        result_response_exec(&incoming.id, out)
    }

    fn hover(&self, incoming: &Incoming) -> (r: String)
        requires
            self.wf(),
        ensures
            r@ == hover_spec(opt_view(incoming.id), opt_view(incoming.params), self@.documents),
    {
        let id = &incoming.id;
        let (uri, _) = match self.uri_and_text_exec(&incoming.params) {
            Some(p) => p,
            None => {
                return null_response_exec(id);
            },
        };
        let text = match self.doc_fits(uri) {
            Some(t) => t,
            None => {
                return null_response_exec(id);
            },
        };
        let offset = cursor_offset_exec(&incoming.params, text.as_str());
        let analysis = match analyze(text.as_str()) {
            Ok(a) => a,
            Err(_) => {
                return null_response_exec(id);
            },
        };
        let (symbol, sym_span) = match analysis.symbol_at(text.as_str(), offset) {
            Some(p) => p,
            None => {
                return null_response_exec(id);
            },
        };
        let range = span_to_range(text.as_str(), sym_span.start, sym_span.end);
        match analysis.lookup(symbol.as_str()) {
            Some(def) => {
                let mut value = String::new();
                push_str(&mut value, "**");
                push_str(&mut value, def.kind.as_str());
                push_str(&mut value, "** `");
                push_str(&mut value, def.name.as_str());
                push_str(&mut value, "`\n\nDefined locally at bytes ");
                push_decimal(&mut value, def.name_span.start as u64);
                push_str(&mut value, "..");
                push_decimal(&mut value, def.name_span.end as u64);
                push_str(&mut value, "\n\n```my-lisp\n");
                push_str(&mut value, span_text(text.as_str(), def.form_span).as_str());
                push_str(&mut value, "\n```");
                proof {
                    assert(value@ =~= local_hover_text(text@, def@));
                }
                let result = hover_json_exec(value.as_str(), range.as_str());
                result_response_exec(id, result)
            },
            None => match builtin_docs(symbol.as_str()) {
                Some(doc) => {
                    let mut value = String::new();
                    push_str(&mut value, "**builtin** `");
                    push_str(&mut value, symbol.as_str());
                    push_str(&mut value, "`\n\n");
                    push_str(&mut value, doc);
                    proof {
                        assert(value@ =~= "**builtin** `"@ + symbol@ + "`\n\n"@ + doc@);
                    }
                    let result = hover_json_exec(value.as_str(), range.as_str());
                    result_response_exec(id, result)
                },
                None => null_response_exec(id),
            },
        }
    }

    fn definition(&self, incoming: &Incoming) -> (r: String)
        requires
            self.wf(),
        ensures
            r@ == definition_spec(opt_view(incoming.id), opt_view(incoming.params), self@),
    {
        let id = &incoming.id;
        let (uri, _) = match self.uri_and_text_exec(&incoming.params) {
            Some(p) => p,
            None => {
                return null_response_exec(id);
            },
        };
        let text = match self.doc_fits(uri) {
            Some(t) => t,
            None => {
                return null_response_exec(id);
            },
        };
        let offset = cursor_offset_exec(&incoming.params, text.as_str());
        let analysis = match analyze(text.as_str()) {
            Ok(a) => a,
            Err(_) => {
                return null_response_exec(id);
            },
        };
        let (symbol, _span) = match analysis.symbol_at(text.as_str(), offset) {
            Some(p) => p,
            None => {
                return null_response_exec(id);
            },
        };
        match analysis.lookup(symbol.as_str()) {
            Some(def) => {
                let loc = location_exec(uri, text.as_str(), def.name_span);
                return result_response_exec(id, loc);
            },
            None => {},
        }
        let found = self.workspace.lookup(symbol.as_str());
        if found.len() > 0 {
            let def = found[0];
            proof {
                assert(Seq::new(found@.len(), |i: int| found@[i]@)[0] == def@);
            }
            match self.workspace.text_of(def.uri.as_str()) {
                Some(def_text) => {
                    proof {
                        lemma_text_in_fits(self@.index.texts, def@.uri);
                    }
                    let loc = location_exec(def.uri.as_str(), def_text, def.name_span);
                    return result_response_exec(id, loc);
                },
                None => {},
            }
        }
        null_response_exec(id)
    }
}

/// A known text of a list whose texts fit 32-bit positions fits them too.
pub proof fn lemma_text_in_fits(texts: Seq<(Seq<char>, Seq<char>)>, uri: Seq<char>)
    requires
        texts_fit(texts),
    ensures
        text_in(texts, uri) matches Some(t) ==> utf8_len(t) <= u32::MAX,
{
    if exists|k: int| 0 <= k < texts.len() && texts[k].0 == uri {
        let k = choose|k: int| 0 <= k < texts.len() && texts[k].0 == uri;
        assert(utf8_len(texts[k].1) <= u32::MAX);
    }
}


// ---------------------------------------------------------------------------
// Completion, executable
// ---------------------------------------------------------------------------

/// One step of picking completion items.
pub open spec fn pick_step(
    prev: Seq<(Seq<char>, Seq<char>)>,
    c: (Seq<char>, Seq<char>),
    prefix: Seq<char>,
) -> Seq<(Seq<char>, Seq<char>)> {
    if (prefix.len() > 0 && !prefix.is_prefix_of(c.0)) || labels(prev).contains(c.0) {
        prev
    } else {
        prev.push(c)
    }
}

pub proof fn lemma_picked_step(cands: Seq<(Seq<char>, Seq<char>)>, k: int, prefix: Seq<char>)
    requires
        0 <= k < cands.len(),
    ensures
        picked(cands.take(k + 1), prefix) == pick_step(picked(cands.take(k), prefix), cands[k], prefix),
{
    assert(cands.take(k + 1).drop_last() =~= cands.take(k));
    assert(cands.take(k + 1).last() == cands[k]);
}

pub open spec fn items_view(v: Seq<(String, String)>) -> Seq<(Seq<char>, Seq<char>)> {
    Seq::new(v.len(), |i: int| (v[i].0@, v[i].1@))
}

/// The detail completion shows for the builtin `name`: that of the first
/// definition of the same name, or `builtin`.
fn builtin_detail(defs: &Vec<crate::analysis::DefInfo>, name: &str) -> (r: String)
    ensures
        r@ == match local_detail(crate::analysis::def_views(defs@), name@) {
            Some(d) => d,
            None => "builtin"@,
        },
{
    let ghost ds = crate::analysis::def_views(defs@);
    let mut i: usize = 0;
    proof {
        assert(ds.skip(0) =~= ds);
    }
    while i < defs.len()
        invariant
            i <= defs@.len(),
            ds == crate::analysis::def_views(defs@),
            local_detail(ds, name@) == local_detail(ds.skip(i as int), name@),
        decreases defs.len() - i,
    {
        let ghost rest = ds.skip(i as int);
        assert(rest[0] == defs@[i as int]@);
        if str_eq(defs[i].name.as_str(), name) {
            let mut out = owned("local ");
            push_str(&mut out, defs[i].kind.as_str());
            return out;
        }
        proof {
            assert(rest.drop_first() =~= ds.skip(i + 1));
        }
        i += 1;
    }
    proof {
        assert(ds.skip(defs@.len() as int).len() == 0);
    }
    owned("builtin")
}

/// Offers one completion candidate.
fn consider(items: &mut Vec<(String, String)>, label: &str, detail: String, prefix: &Vec<char>)
    ensures
        items_view(final(items)@) == pick_step(items_view(old(items)@), (label@, detail@), prefix@),
{
    let ghost before = items_view(items@);
    if prefix.len() > 0 {
        let lc = crate::text::chars_of(label);
        if !crate::text::starts_with(&lc, prefix) {
            proof {
                assert(!prefix@.is_prefix_of(label@));
            }
            return;
        }
        proof {
            assert(prefix@.is_prefix_of(label@));
        }
    }
    let mut i: usize = 0;
    while i < items.len()
        invariant
            i <= items@.len(),
            items@ == old(items)@,
            before == items_view(old(items)@),
            forall|k: int| 0 <= k < i ==> labels(before)[k] != label@,
        decreases items.len() - i,
    {
        if string_eq(&items[i].0, label) {
            proof {
                assert(labels(before)[i as int] == label@);
                assert(labels(before).contains(label@));
            }
            return;
        }
        i += 1;
    }
    proof {
        assert(!labels(before).contains(label@));
    }
    let ghost dv = detail@;
    items.push((owned(label), detail));
    proof {
        assert(items_view(items@) =~= before.push((label@, dv)));
    }
}

fn symbol_run_start_exec(chars: &Vec<char>, e: usize) -> (r: usize)
    requires
        e <= chars@.len(),
    ensures
        r == symbol_run_start(chars@, e as int),
        r <= e,
{
    let mut k = e;
    while k > 0 && is_symbol_char_exec(chars[k - 1])
        invariant
            k <= e <= chars@.len(),
            symbol_run_start(chars@, k as int) == symbol_run_start(chars@, e as int),
        decreases k,
    {
        k -= 1;
    }
    k
}

fn completion_prefix_exec(text: &str, offset: usize) -> (r: Vec<char>)
    ensures
        r@ == completion_prefix(text@, offset as int),
{
    let chars = crate::text::chars_of(text);
    let bytes = text.as_bytes();
    proof {
        lemma_utf8_len_matches_encoding(text@);
    }
    let n = bytes.len();
    let end = if offset < n {
        offset
    } else {
        n
    };
    let (e, _) = floor_boundary(&chars, end);
    let start = symbol_run_start_exec(&chars, e);
    let mut out: Vec<char> = Vec::new();
    let mut i = start;
    while i < e
        invariant
            start <= i <= e <= chars@.len(),
            out@ == chars@.subrange(start as int, i as int),
        decreases e - i,
    {
        out.push(chars[i]);
        proof {
            assert(chars@.subrange(start as int, i + 1) =~= chars@.subrange(start as int, i as int).push(chars@[i as int]));
        }
        i += 1;
    }
    out
}

fn file_name_exec(u: &str) -> (r: String)
    ensures
        r@ == file_name_of(u@),
{
    let cs = crate::text::chars_of(u);
    let mut k = cs.len();
    while k > 0 && cs[k - 1] != '/'
        invariant
            k <= cs@.len(),
            cs@ == u@,
            after_last_slash(u@, k as int) == after_last_slash(u@, u@.len() as int),
        decreases k,
    {
        k -= 1;
    }
    crate::text::string_from_chars(&cs, k, cs.len())
}

impl Server {
    fn completion(&self, incoming: &Incoming) -> (r: String)
        requires
            self.wf(),
        ensures
            r@ == completion_spec(opt_view(incoming.id), opt_view(incoming.params), self@),
    {
        let id = &incoming.id;
        let (uri, _) = match self.uri_and_text_exec(&incoming.params) {
            Some(p) => p,
            None => {
                return result_response_exec(id, owned("[]"));
            },
        };
        let text = match self.doc_fits(uri) {
            Some(t) => t,
            None => {
                return result_response_exec(id, owned("[]"));
            },
        };
        let offset = cursor_offset_exec(&incoming.params, text.as_str());
        let prefix = completion_prefix_exec(text.as_str(), offset);
        let ghost cands = completion_candidates(text@, self@.index);
        let ghost p = prefix@;
        let mut items: Vec<(String, String)> = Vec::new();
        // builtins
        let names = builtin_name_list();
        let analyzed = analyze(text.as_str());
        let mut i: usize = 0;
        proof {
            assert(cands.take(0) =~= Seq::<(Seq<char>, Seq<char>)>::empty());
            assert(items_view(items@) =~= Seq::<(Seq<char>, Seq<char>)>::empty());
        }
        while i < names.len()
            invariant
                i <= names@.len(),
                Seq::new(names@.len(), |k: int| names@[k]@) == builtin_names(),
                cands == completion_candidates(text@, self@.index),
                prefix@ == p,
                items_view(items@) == picked(cands.take(i as int), p),
                match analyzed {
                    Ok(a) => spec_analyze(text@) == Ok::<Seq<DefSpec>, crate::error::ErrorSpec>(
                        crate::analysis::def_views(a.defs@),
                    ),
                    Err(e) => spec_analyze(text@) == Err::<Seq<DefSpec>, crate::error::ErrorSpec>(e@),
                },
            decreases names.len() - i,
        {
            let detail = match &analyzed {
                Ok(a) => builtin_detail(&a.defs, names[i]),
                Err(_) => owned("builtin"),
            };
            proof {
                assert(cands[i as int] == builtin_candidate(text@, names@[i as int]@));
                assert(cands[i as int] == (names@[i as int]@, detail@));
                lemma_picked_step(cands, i as int, p);
            }
            consider(&mut items, names[i], detail, &prefix);
            i += 1;
        }
        let nb = names.len();
        let ghost local: Seq<(Seq<char>, Seq<char>)> = match spec_analyze(text@) {
            Ok(ds) => Seq::new(ds.len(), |i: int| (ds[i].name, "local "@ + ds[i].kind)),
            Err(_) => Seq::empty(),
        };
        let ghost nl = local.len();
        match analyze(text.as_str()) {
            Ok(analysis) => {
                let ghost ds = crate::analysis::def_views(analysis.defs@);
                let mut j: usize = 0;
                while j < analysis.defs.len()
                    invariant
                        j <= analysis.defs@.len(),
                        nb == 54,
                        builtin_names().len() == 54,
                        ds == crate::analysis::def_views(analysis.defs@),
                        spec_analyze(text@) == Ok::<Seq<DefSpec>, crate::error::ErrorSpec>(ds),
                        local == Seq::new(ds.len(), |i: int| (ds[i].name, "local "@ + ds[i].kind)),
                        cands == completion_candidates(text@, self@.index),
                        prefix@ == p,
                        items_view(items@) == picked(cands.take(nb + j), p),
                    decreases analysis.defs.len() - j,
                {
                    let d = &analysis.defs[j];
                    proof {
                        assert(ds[j as int] == d@);
                        assert(cands[nb + j] == (d@.name, "local "@ + d@.kind));
                        lemma_picked_step(cands, nb + j, p);
                    }
                    let mut detail = String::new();
                    push_str(&mut detail, "local ");
                    push_str(&mut detail, d.kind.as_str());
                    proof {
                        assert(detail@ =~= "local "@ + d@.kind);
                    }
                    consider(&mut items, d.name.as_str(), detail, &prefix);
                    j += 1;
                }
            },
            Err(_) => {},
        }
        let all = self.workspace.lookup_all();
        let mut j: usize = 0;
        while j < all.len()
            invariant
                j <= all@.len(),
                nb == 54,
                crate::workspace::wdef_views(all@) == self@.index.defs,
                cands == completion_candidates(text@, self@.index),
                nl == local.len(),
                local == (match spec_analyze(text@) {
                    Ok(ds) => Seq::new(ds.len(), |i: int| (ds[i].name, "local "@ + ds[i].kind)),
                    Err(_) => Seq::empty(),
                }),
                prefix@ == p,
                items_view(items@) == picked(cands.take(nb + nl + j), p),
            decreases all.len() - j,
        {
            let d = &all[j];
            let file = file_name_exec(d.uri.as_str());
            let mut detail = String::new();
            push_str(&mut detail, d.kind.as_str());
            push_str(&mut detail, " (");
            push_str(&mut detail, file.as_str());
            push_str(&mut detail, ")");
            proof {
                assert(self@.index.defs[j as int] == d@);
                assert(detail@ =~= d@.kind + " ("@ + file_name_of(d@.uri) + ")"@);
                assert(cands[nb + nl + j] == (d@.name, detail@));
                lemma_picked_step(cands, nb + nl + j, p);
            }
            consider(&mut items, d.name.as_str(), detail, &prefix);
            j += 1;
        }
        proof {
            assert(cands.take(nb + nl + all@.len()) =~= cands);
        }
        let mut rendered: Vec<String> = Vec::new();
        let ghost iv = items_view(items@);
        let mut k: usize = 0;
        while k < items.len()
            invariant
                k <= items@.len(),
                iv == items_view(items@),
                texts_of(rendered@) == Seq::new(k as nat, |m: int| completion_item(iv[m])),
            decreases items.len() - k,
        {
            let mut e = String::new();
            push_str(&mut e, "{\"label\":");
            push_str(&mut e, str_lit(items[k].0.as_str()).as_str());
            push_str(&mut e, ",\"kind\":3,\"detail\":");
            push_str(&mut e, str_lit(items[k].1.as_str()).as_str());
            push_str(&mut e, "}");
            let ghost rp = rendered@;
            let ghost ev = e@;
            proof {
                assert(ev =~= completion_item(iv[k as int]));
            }
            rendered.push(e);
            proof {
                assert(texts_of(rendered@) =~= texts_of(rp).push(ev));
                assert(texts_of(rendered@) =~= Seq::new((k + 1) as nat, |m: int| completion_item(iv[m])));
            }
            k += 1;
        }
        let mut out = String::new();
        push_str(&mut out, "{\"isIncomplete\":false,\"items\":[");
        push_str(&mut out, join(rendered.as_slice()).as_str());
        push_str(&mut out, "]}");
        proof {
            assert(Seq::new(iv.len(), |m: int| completion_item(iv[m])) =~= texts_of(rendered@));
            assert(out@ =~= completion_result(iv));
        }
        result_response_exec(id, out)
    }
}


// ---------------------------------------------------------------------------
// References and rename, executable
// ---------------------------------------------------------------------------

fn include_declaration_exec(params: &Option<Value>) -> (r: bool)
    ensures
        r == include_declaration(opt_view(*params)),
{
    let p = match params {
        Some(p) => p,
        None => {
            return false;
        },
    };
    let c = match get(p, "context") {
        Some(c) => c,
        None => {
            return false;
        },
    };
    match get(c, "includeDeclaration") {
        Some(Value::Bool(b)) => *b,
        Some(Value::Symbol(n)) => string_eq(n, "true"),
        _ => false,
    }
}

pub open spec fn keys_view(v: Seq<(String, usize)>) -> Seq<(Seq<char>, usize)> {
    Seq::new(v.len(), |i: int| (v[i].0@, v[i].1))
}

fn has_key(keys: &Vec<(String, usize)>, u: &str, start: usize) -> (r: bool)
    ensures
        r == keys_view(keys@).contains((u@, start)),
{
    let mut i: usize = 0;
    while i < keys.len()
        invariant
            i <= keys@.len(),
            forall|k: int| 0 <= k < i ==> keys_view(keys@)[k] != (u@, start),
        decreases keys.len() - i,
    {
        if keys[i].1 == start && string_eq(&keys[i].0, u) {
            proof {
                assert(keys_view(keys@)[i as int] == (u@, start));
            }
            return true;
        }
        i += 1;
    }
    false
}

fn has_start(v: &Vec<usize>, x: usize) -> (r: bool)
    ensures
        r == v@.contains(x),
{
    let mut i: usize = 0;
    while i < v.len()
        invariant
            i <= v@.len(),
            forall|k: int| 0 <= k < i ==> v@[k] != x,
        decreases v.len() - i,
    {
        if v[i] == x {
            return true;
        }
        i += 1;
    }
    false
}

fn declaration_starts_exec(defs: &Vec<crate::analysis::DefInfo>, sym: &str) -> (r: Vec<usize>)
    ensures
        r@ == declaration_starts(crate::analysis::def_views(defs@), sym@),
{
    let ghost ds = crate::analysis::def_views(defs@);
    let mut out: Vec<usize> = Vec::new();
    let mut i: usize = 0;
    proof {
        assert(ds.take(0) =~= Seq::<DefSpec>::empty());
    }
    while i < defs.len()
        invariant
            i <= defs@.len(),
            ds == crate::analysis::def_views(defs@),
            out@ == declaration_starts(ds.take(i as int), sym@),
        decreases defs.len() - i,
    {
        proof {
            let t = ds.take(i + 1);
            assert(t.drop_last() =~= ds.take(i as int));
            assert(t.last() == defs@[i as int]@);
        }
        if string_eq(&defs[i].name, sym) {
            out.push(defs[i].name_span.start);
        }
        proof {
            assert(out@ =~= declaration_starts(ds.take(i + 1), sym@));
        }
        i += 1;
    }
    proof {
        assert(ds.take(defs@.len() as int) =~= ds);
    }
    out
}

/// Adds the references of `sym` in document `u` to the gathered ones.
fn refs_in_doc_exec(
    keys: &mut Vec<(String, usize)>,
    locs: &mut Vec<String>,
    u: &str,
    t: &str,
    sym: &str,
    incl: bool,
)
    requires
        utf8_len(t@) <= u32::MAX,
    ensures
        (RefAcc { keys: keys_view(final(keys)@), locs: texts_of(final(locs)@) }) == refs_in_doc(
            RefAcc { keys: keys_view(old(keys)@), locs: texts_of(old(locs)@) },
            u@,
            t@,
            sym@,
            incl,
        ),
{
    let ghost acc0 = RefAcc { keys: keys_view(keys@), locs: texts_of(locs@) };
    let occs = match crate::analysis::symbol_occurrences(t) {
        Ok(o) => o,
        Err(_) => {
            return;
        },
    };
    let ghost xs = choose|xs: Seq<Syntax>| spec_parse(t@) == Ok::<Seq<Syntax>, crate::error::ErrorSpec>(xs);
    assert(spec_parse(t@) == Ok::<Seq<Syntax>, crate::error::ErrorSpec>(xs));
    let decls: Vec<usize> = if incl {
        Vec::new()
    } else {
        match analyze(t) {
            Ok(a) => declaration_starts_exec(&a.defs, sym),
            Err(_) => Vec::new(),
        }
    };
    let ghost dv = if incl {
        Seq::<usize>::empty()
    } else {
        declaration_starts(defs_of(xs), sym@)
    };
    proof {
        assert(decls@ =~= dv);
    }
    let ghost ov = crate::analysis::occ_views(occs@);
    let mut i: usize = 0;
    proof {
        assert(ov.take(0) =~= Seq::<crate::analysis::OccurrenceSpec>::empty());
    }
    while i < occs.len()
        invariant
            i <= occs@.len(),
            ov == crate::analysis::occ_views(occs@),
            ov == crate::analysis::occurrences_all(xs),
            decls@ == dv,
            utf8_len(t@) <= u32::MAX,
            (RefAcc { keys: keys_view(keys@), locs: texts_of(locs@) }) == refs_fold(
                u@,
                t@,
                sym@,
                incl,
                dv,
                ov.take(i as int),
                acc0,
            ),
        decreases occs.len() - i,
    {
        let o = &occs[i];
        proof {
            let tk = ov.take(i + 1);
            assert(tk.drop_last() =~= ov.take(i as int));
            assert(tk.last() == o@);
        }
        let skip = !string_eq(&o.name, sym) || (!incl && has_start(&decls, o.span.start)) || has_key(
            keys,
            u,
            o.span.start,
        );
        if !skip {
            let ghost kp = keys@;
            let ghost lp = locs@;
            keys.push((owned(u), o.span.start));
            let loc = location_exec(u, t, o.span);
            let ghost lv = loc@;
            locs.push(loc);
            proof {
                assert(keys_view(keys@) =~= keys_view(kp).push((u@, o.span.start)));
                assert(texts_of(locs@) =~= texts_of(lp).push(lv));
            }
        }
        i += 1;
    }
    proof {
        assert(ov.take(occs@.len() as int) =~= ov);
    }
}

/// The edits renaming `sym` in a parsed document's occurrences.
fn edits_exec(t: &str, occs: &Vec<crate::analysis::SymbolOccurrence>, sym: &str, new_name: &str) -> (r: Vec<
    String,
>)
    requires
        utf8_len(t@) <= u32::MAX,
    ensures
        texts_of(r@) == edits_of(t@, crate::analysis::occ_views(occs@), sym@, new_name@),
{
    let ghost ov = crate::analysis::occ_views(occs@);
    let mut out: Vec<String> = Vec::new();
    let mut i: usize = 0;
    proof {
        assert(ov.take(0) =~= Seq::<crate::analysis::OccurrenceSpec>::empty());
        assert(texts_of(out@) =~= Seq::<Seq<char>>::empty());
    }
    while i < occs.len()
        invariant
            i <= occs@.len(),
            ov == crate::analysis::occ_views(occs@),
            utf8_len(t@) <= u32::MAX,
            texts_of(out@) == edits_of(t@, ov.take(i as int), sym@, new_name@),
        decreases occs.len() - i,
    {
        let o = &occs[i];
        proof {
            let tk = ov.take(i + 1);
            assert(tk.drop_last() =~= ov.take(i as int));
            assert(tk.last() == o@);
        }
        let ghost op = out@;
        if string_eq(&o.name, sym) {
            let mut e = String::new();
            push_str(&mut e, "{\"range\":");
            push_str(&mut e, span_to_range(t, o.span.start, o.span.end).as_str());
            push_str(&mut e, ",\"newText\":");
            push_str(&mut e, str_lit(new_name).as_str());
            push_str(&mut e, "}");
            let ghost ev = e@;
            proof {
                assert(ev =~= edit_text(t@, o.span, new_name@));
            }
            out.push(e);
            proof {
                assert(texts_of(out@) =~= texts_of(op).push(ev));
                assert(texts_of(out@) =~= edits_of(t@, ov.take(i + 1), sym@, new_name@));
            }
        } else {
            proof {
                assert(texts_of(out@) =~= edits_of(t@, ov.take(i + 1), sym@, new_name@));
            }
        }
        i += 1;
    }
    proof {
        assert(ov.take(occs@.len() as int) =~= ov);
    }
    out
}

/// Adds document `u`'s rename edits, if it has any.
fn doc_edits_exec(changes: &mut Vec<String>, u: &str, t: &str, sym: &str, new_name: &str)
    requires
        utf8_len(t@) <= u32::MAX,
    ensures
        texts_of(final(changes)@) == with_doc_edits(texts_of(old(changes)@), u@, t@, sym@, new_name@),
{
    let occs = match crate::analysis::symbol_occurrences(t) {
        Ok(o) => o,
        Err(_) => {
            return;
        },
    };
    let edits = edits_exec(t, &occs, sym, new_name);
    if edits.len() > 0 {
        let mut e = String::new();
        push_str(&mut e, str_lit(u).as_str());
        push_str(&mut e, ":[");
        push_str(&mut e, join(edits.as_slice()).as_str());
        push_str(&mut e, "]");
        let ghost cp = changes@;
        let ghost ev = e@;
        changes.push(e);
        proof {
            assert(texts_of(changes@) =~= texts_of(cp).push(ev));
        }
    }
}

fn valid_symbol_name_exec(name: &str) -> (r: bool)
    ensures
        r == valid_symbol_name(name@),
{
    let cs = crate::text::chars_of(name);
    if cs.len() == 0 {
        return false;
    }
    let mut i: usize = 0;
    while i < cs.len()
        invariant
            i <= cs@.len(),
            cs@ == name@,
            forall|k: int| 0 <= k < i ==> is_symbol_char(#[trigger] cs@[k]),
        decreases cs.len() - i,
    {
        if !is_symbol_char_exec(cs[i]) {
            return false;
        }
        i += 1;
    }
    !('0' <= cs[0] && cs[0] <= '9')
}

impl Server {
    fn references(&self, incoming: &Incoming) -> (r: String)
        requires
            self.wf(),
        ensures
            r@ == references_spec(opt_view(incoming.id), opt_view(incoming.params), self@),
    {
        let id = &incoming.id;
        let (uri, _) = match self.uri_and_text_exec(&incoming.params) {
            Some(p) => p,
            None => {
                return result_response_exec(id, owned("[]"));
            },
        };
        let text = match self.doc_fits(uri) {
            Some(t) => t,
            None => {
                return result_response_exec(id, owned("[]"));
            },
        };
        let offset = cursor_offset_exec(&incoming.params, text.as_str());
        let analysis = match analyze(text.as_str()) {
            Ok(a) => a,
            Err(_) => {
                return result_response_exec(id, owned("[]"));
            },
        };
        let (symbol, _) = match analysis.symbol_at(text.as_str(), offset) {
            Some(p) => p,
            None => {
                return result_response_exec(id, owned("[]"));
            },
        };
        let incl = include_declaration_exec(&incoming.params);
        let mut keys: Vec<(String, usize)> = Vec::new();
        let mut locs: Vec<String> = Vec::new();
        proof {
            assert(keys_view(keys@) =~= Seq::<(Seq<char>, usize)>::empty());
            assert(texts_of(locs@) =~= Seq::<Seq<char>>::empty());
        }
        refs_in_doc_exec(&mut keys, &mut locs, uri, text.as_str(), symbol.as_str(), incl);
        let ghost a = RefAcc { keys: keys_view(keys@), locs: texts_of(locs@) };
        let uris = self.workspace.all_texts();
        let ghost tx = self@.index.texts;
        let mut k: usize = 0;
        proof {
            assert(tx.take(0) =~= Seq::<(Seq<char>, Seq<char>)>::empty());
            assert(Seq::new(uris@.len(), |i: int| uris@[i]@).len() == Seq::new(tx.len(), |i: int| tx[i].0).len());
        }
        while k < uris.len()
            invariant
                k <= uris@.len(),
                uris@.len() == tx.len(),
                tx == self@.index.texts,
                self.wf(),
                Seq::new(uris@.len(), |i: int| uris@[i]@) == Seq::new(tx.len(), |i: int| tx[i].0),
                (RefAcc { keys: keys_view(keys@), locs: texts_of(locs@) }) == refs_in_docs(
                    a,
                    tx.take(k as int),
                    uri@,
                    symbol@,
                    incl,
                ),
            decreases uris.len() - k,
        {
            proof {
                let t = tx.take(k + 1);
                assert(t.drop_last() =~= tx.take(k as int));
                assert(t.last() == tx[k as int]);
                assert(Seq::new(uris@.len(), |i: int| uris@[i]@)[k as int] == Seq::new(tx.len(), |i: int| tx[i].0)[k as int]);
                assert(uris@[k as int]@ == tx[k as int].0);
            }
            if !str_eq(uris[k].as_str(), uri) {
                match self.workspace.text_of(uris[k].as_str()) {
                    Some(t) => {
                        proof {
                            lemma_text_in(tx, k as int);
                            lemma_text_in_fits(tx, tx[k as int].0);
                        }
                        refs_in_doc_exec(&mut keys, &mut locs, uris[k].as_str(), t, symbol.as_str(), incl);
                    },
                    None => {
                        proof {
                            lemma_text_in(tx, k as int);
                        }
                    },
                }
            }
            k += 1;
        }
        proof {
            assert(tx.take(uris@.len() as int) =~= tx);
        }
        let mut out = String::new();
        push_str(&mut out, "[");
        push_str(&mut out, join(locs.as_slice()).as_str());
        push_str(&mut out, "]");
        result_response_exec(id, out)
    }

    fn rename(&self, incoming: &Incoming) -> (r: String)
        requires
            self.wf(),
        ensures
            r@ == rename_spec(opt_view(incoming.id), opt_view(incoming.params), self@),
    {
        let id = &incoming.id;
        let new_name = match &incoming.params {
            Some(p) => as_str(get(p, "newName")),
            None => None,
        };
        let new_name = match new_name {
            Some(n) => n,
            None => {
                return response(id, None, Some((INVALID_PARAMS, owned("rename requires newName"))));
            },
        };
        if !valid_symbol_name_exec(new_name) {
            let mut msg = String::new();
            push_str(&mut msg, "invalid symbol name: ");
            push_str(&mut msg, new_name);
            return response(id, None, Some((INVALID_PARAMS, msg)));
        }
        let (uri, _) = match self.uri_and_text_exec(&incoming.params) {
            Some(p) => p,
            None => {
                return null_response_exec(id);
            },
        };
        let text = match self.doc_fits(uri) {
            Some(t) => t,
            None => {
                return null_response_exec(id);
            },
        };
        let offset = cursor_offset_exec(&incoming.params, text.as_str());
        let analysis = match analyze(text.as_str()) {
            Ok(a) => a,
            Err(_) => {
                return null_response_exec(id);
            },
        };
        let (symbol, _) = match analysis.symbol_at(text.as_str(), offset) {
            Some(p) => p,
            None => {
                return null_response_exec(id);
            },
        };
        let mut changes: Vec<String> = Vec::new();
        proof {
            assert(texts_of(changes@) =~= Seq::<Seq<char>>::empty());
        }
        doc_edits_exec(&mut changes, uri, text.as_str(), symbol.as_str(), new_name);
        let ghost c0 = texts_of(changes@);
        let uris = self.workspace.all_texts();
        let ghost tx = self@.index.texts;
        let mut k: usize = 0;
        proof {
            assert(tx.take(0) =~= Seq::<(Seq<char>, Seq<char>)>::empty());
            assert(Seq::new(uris@.len(), |i: int| uris@[i]@).len() == Seq::new(tx.len(), |i: int| tx[i].0).len());
        }
        while k < uris.len()
            invariant
                k <= uris@.len(),
                uris@.len() == tx.len(),
                tx == self@.index.texts,
                self.wf(),
                Seq::new(uris@.len(), |i: int| uris@[i]@) == Seq::new(tx.len(), |i: int| tx[i].0),
                texts_of(changes@) == edits_in_docs(c0, tx.take(k as int), uri@, symbol@, new_name@),
            decreases uris.len() - k,
        {
            proof {
                let t = tx.take(k + 1);
                assert(t.drop_last() =~= tx.take(k as int));
                assert(t.last() == tx[k as int]);
                assert(Seq::new(uris@.len(), |i: int| uris@[i]@)[k as int] == Seq::new(tx.len(), |i: int| tx[i].0)[k as int]);
                assert(uris@[k as int]@ == tx[k as int].0);
            }
            if !str_eq(uris[k].as_str(), uri) {
                match self.workspace.text_of(uris[k].as_str()) {
                    Some(t) => {
                        proof {
                            lemma_text_in(tx, k as int);
                            lemma_text_in_fits(tx, tx[k as int].0);
                        }
                        doc_edits_exec(&mut changes, uris[k].as_str(), t, symbol.as_str(), new_name);
                    },
                    None => {
                        proof {
                            lemma_text_in(tx, k as int);
                        }
                    },
                }
            }
            k += 1;
        }
        proof {
            assert(tx.take(uris@.len() as int) =~= tx);
        }
        let mut out = String::new();
        push_str(&mut out, "{\"changes\":{");
        push_str(&mut out, join(changes.as_slice()).as_str());
        push_str(&mut out, "}}");
        result_response_exec(id, out)
    }
}


// ---------------------------------------------------------------------------
// Dispatch
// ---------------------------------------------------------------------------

/// The server after document `u` is set to text `t`.
pub open spec fn stored(st: ServerView, u: Seq<char>, t: Seq<char>) -> ServerView {
    ServerView {
        documents: set_text(st.documents, u, t),
        index: updated(st.index, u, t),
        pending_root: st.pending_root,
    }
}

/// Storing a document and publishing its diagnostics; a text beyond the
/// editor's 32-bit positions is not taken.
pub open spec fn store_and_publish(st: ServerView, u: Seq<char>, t: Seq<char>) -> (ServerView, Seq<Seq<char>>) {
    if utf8_len(t) <= u32::MAX {
        let s2 = stored(st, u, t);
        (s2, seq![publish_spec(s2.documents, u)])
    } else {
        (st, Seq::empty())
    }
}

/// The text a `didOpen` carries.
pub open spec fn opened_text(params: Option<Data>) -> Option<Seq<char>> {
    match td_of(params) {
        Some(td) => str_of(get_spec(td, "text"@)),
        None => None,
    }
}

pub open spec fn did_open_spec(st: ServerView, params: Option<Data>) -> (ServerView, Seq<Seq<char>>) {
    match (uri_of(params), opened_text(params)) {
        (Some(u), Some(t)) => store_and_publish(st, u, t),
        _ => (st, Seq::empty()),
    }
}

/// The new full text a `didChange` carries: that of its last content change.
pub open spec fn changed_text(params: Option<Data>) -> Option<Seq<char>> {
    let changes = match params {
        Some(p) => match get_spec(p, "contentChanges"@) {
            Some(c) => items_of(c),
            None => Seq::empty(),
        },
        None => Seq::empty(),
    };
    if changes.len() == 0 {
        None
    } else {
        str_of(get_spec(changes.last(), "text"@))
    }
}

pub open spec fn did_change_spec(st: ServerView, params: Option<Data>) -> (ServerView, Seq<Seq<char>>) {
    match uri_of(params) {
        None => (st, Seq::empty()),
        Some(u) => match changed_text(params) {
            Some(t) => store_and_publish(st, u, t),
            None => (st, Seq::empty()),
        },
    }
}

/// The workspace root an `initialize` names, as a path.
pub open spec fn root_request(params: Option<Data>) -> Option<Seq<char>> {
    match params {
        Some(p) => match str_of(get_spec(p, "rootUri"@)) {
            Some(u) => uri_path(u),
            None => None,
        },
        None => None,
    }
}

pub open spec fn initialize_state(st: ServerView, params: Option<Data>) -> ServerView {
    match root_request(params) {
        Some(path) => ServerView { pending_root: Some(path), ..st },
        None => st,
    }
}

/// What a request or notification with method `m` does.
pub open spec fn dispatch_spec(st: ServerView, m: Seq<char>, id: Option<Data>, params: Option<Data>) -> (
    ServerView,
    Seq<Seq<char>>,
) {
    if m == "initialize"@ {
        (initialize_state(st, params), seq![result_response(id, initialize_result())])
    } else if m == "initialized"@ || m == "$/cancelRequest"@ {
        (st, Seq::empty())
    } else if m == "shutdown"@ {
        (st, seq![null_response(id)])
    } else if m == "exit"@ {
        (st, Seq::empty())
    } else if m == "textDocument/didOpen"@ {
        did_open_spec(st, params)
    } else if m == "textDocument/didChange"@ {
        did_change_spec(st, params)
    } else if m == "textDocument/documentSymbol"@ {
        (st, seq![document_symbols_spec(id, params, st.documents)])
    } else if m == "textDocument/hover"@ {
        (st, seq![hover_spec(id, params, st.documents)])
    } else if m == "textDocument/definition"@ {
        (st, seq![definition_spec(id, params, st)])
    } else if m == "textDocument/completion"@ {
        (st, seq![completion_spec(id, params, st)])
    } else if m == "textDocument/references"@ {
        (st, seq![references_spec(id, params, st)])
    } else if m == "textDocument/rename"@ {
        (st, seq![rename_spec(id, params, st)])
    } else if id is Some {
        (st, seq![error_response(id, METHOD_NOT_FOUND as int, "method not found: "@ + m)])
    } else {
        (st, Seq::empty())
    }
}

/// What one raw message does: the new state and the messages sent, in order.
/// Malformed JSON is answered with a parse error; a message with an id but
/// no method with an invalid-request error; other notifications without a
/// method are dropped.
pub open spec fn handle_spec(st: ServerView, msg: Seq<char>) -> (ServerView, Seq<Seq<char>>) {
    match spec_parse_json(msg) {
        Err(e) => (st, seq![error_response(None, PARSE_ERROR as int, "parse error: "@ + e)]),
        Ok(d) => {
            let id = get_spec(d, "id"@);
            let params = get_spec(d, "params"@);
            match str_of(get_spec(d, "method"@)) {
                None => if id is Some {
                    (st, seq![error_response(id, INVALID_REQUEST as int, "missing method"@)])
                } else {
                    (st, Seq::empty())
                },
                Some(m) => dispatch_spec(st, m, id, params),
            }
        },
    }
}

/// Whether a raw message is an `initialize`, `textDocument/didOpen` or
/// `textDocument/didChange` message, the only ones that update the state.
pub open spec fn updates_state(msg: Seq<char>) -> bool {
    spec_parse_json(msg) matches Ok(d) && {
        let m = str_of(get_spec(d, "method"@));
        m == Some("initialize"@) || m == Some("textDocument/didOpen"@) || m == Some(
            "textDocument/didChange"@,
        )
    }
}

/// Law: any other message (malformed JSON, a wrong shape, a missing or
/// unknown method, a request naming any document or position) leaves the
/// server's state as it was, so every later request is answered exactly as
/// if it had not come; and malformed JSON is answered with one parse error.
pub proof fn law_other_messages_keep_state(st: ServerView, msg: Seq<char>, next: Seq<char>)
    requires
        !updates_state(msg),
    ensures
        handle_spec(st, msg).0 == st,
        handle_spec(handle_spec(st, msg).0, next) == handle_spec(st, next),
        spec_parse_json(msg) is Err ==> handle_spec(st, msg).1.len() == 1,
{
}

/// Whether a raw message is the `exit` notification.
pub open spec fn wants_exit_spec(msg: Seq<char>) -> bool {
    spec_parse_json(msg) matches Ok(d) && str_of(get_spec(d, "method"@)) == Some("exit"@)
}

/// Setting a fitting text keeps every text fitting.
pub proof fn lemma_set_text_fits(texts: Seq<(Seq<char>, Seq<char>)>, u: Seq<char>, t: Seq<char>)
    requires
        distinct_uris(texts),
        texts_fit(texts),
        utf8_len(t) <= u32::MAX,
    ensures
        texts_fit(set_text(texts, u, t)),
{
    lemma_set_text(texts, u, t);
    let r = set_text(texts, u, t);
    assert forall|k: int| 0 <= k < r.len() implies utf8_len(#[trigger] r[k].1) <= u32::MAX by {
        assert(r[k] == (if k < texts.len() && texts[k].0 != u {
            texts[k]
        } else {
            (u, t)
        }));
    }
}

/// Scanned files within the scan cap give an index whose texts fit.
pub proof fn lemma_indexed_fits(files: Seq<(Seq<char>, Seq<char>)>)
    requires
        forall|k: int| 0 <= k < files.len() ==> utf8_len(#[trigger] files[k].1) <= SCAN_MAX_BYTES,
    ensures
        texts_fit(indexed(files).texts),
        distinct_uris(indexed(files).texts),
    decreases files.len(),
{
    if files.len() > 0 {
        let prev = files.drop_last();
        assert forall|k: int| 0 <= k < prev.len() implies utf8_len(#[trigger] prev[k].1) <= SCAN_MAX_BYTES by {
            assert(prev[k] == files[k]);
        }
        lemma_indexed_fits(prev);
        assert(utf8_len(files[files.len() - 1].1) <= SCAN_MAX_BYTES);
        lemma_set_text_fits(indexed(prev).texts, files.last().0, files.last().1);
        lemma_set_text(indexed(prev).texts, files.last().0, files.last().1);
    }
}

impl Server {
    fn store(&mut self, uri: &str, text: &str)
        requires
            old(self).wf(),
            utf8_len(text@) <= u32::MAX,
        ensures
            final(self).wf(),
            final(self)@ == stored(old(self)@, uri@, text@),
    {
        proof {
            lemma_set_text_fits(self@.documents, uri@, text@);
            lemma_set_text_fits(self@.index.texts, uri@, text@);
        }
        put_text(&mut self.documents, uri, text);
        self.workspace.update_document(uri, text);
    }

    fn store_and_publish_exec(&mut self, uri: &str, text: &str) -> (r: Vec<String>)
        requires
            old(self).wf(),
        ensures
            final(self).wf(),
            (final(self)@, texts_of(r@)) == store_and_publish(old(self)@, uri@, text@),
    {
        if !fits_positions(text) {
            let r: Vec<String> = Vec::new();
            proof {
                assert(texts_of(r@) =~= Seq::<Seq<char>>::empty());
            }
            return r;
        }
        self.store(uri, text);
        let p = self.publish(uri);
        let r = vec![p];
        proof {
            assert(texts_of(r@) =~= seq![p@]);
        }
        r
    }

    fn did_open(&mut self, incoming: &Incoming) -> (r: Vec<String>)
        requires
            old(self).wf(),
        ensures
            final(self).wf(),
            (final(self)@, texts_of(r@)) == did_open_spec(old(self)@, opt_view(incoming.params)),
    {
        let uri = match uri_exec(&incoming.params) {
            Some(u) => u,
            None => {
                let r: Vec<String> = Vec::new();
                proof {
                    assert(texts_of(r@) =~= Seq::<Seq<char>>::empty());
                }
                return r;
            },
        };
        let text = match td_exec(&incoming.params) {
            Some(td) => as_str(get(td, "text")),
            None => None,
        };
        match text {
            Some(t) => self.store_and_publish_exec(uri, t),
            None => {
                let r: Vec<String> = Vec::new();
                proof {
                    assert(texts_of(r@) =~= Seq::<Seq<char>>::empty());
                }
                r
            },
        }
    }

    fn did_change(&mut self, incoming: &Incoming) -> (r: Vec<String>)
        requires
            old(self).wf(),
        ensures
            final(self).wf(),
            (final(self)@, texts_of(r@)) == did_change_spec(old(self)@, opt_view(incoming.params)),
    {
        let empty: Vec<String> = Vec::new();
        proof {
            assert(texts_of(empty@) =~= Seq::<Seq<char>>::empty());
        }
        let uri = match uri_exec(&incoming.params) {
            Some(u) => u,
            None => {
                return empty;
            },
        };
        let changes = match &incoming.params {
            Some(p) => as_array(get(p, "contentChanges")),
            None => Vec::new(),
        };
        if changes.len() == 0 {
            return empty;
        }
        let last = changes[changes.len() - 1];
        proof {
            assert(last@ == match opt_view(incoming.params) {
                Some(p) => match get_spec(p, "contentChanges"@) {
                    Some(c) => items_of(c),
                    None => Seq::empty(),
                },
                None => Seq::empty(),
            }.last());
        }
        match as_str(get(last, "text")) {
            Some(t) => self.store_and_publish_exec(uri, t),
            None => empty,
        }
    }

    fn initialize(&mut self, incoming: &Incoming) -> (r: String)
        requires
            old(self).wf(),
        ensures
            final(self).wf(),
            final(self)@ == initialize_state(old(self)@, opt_view(incoming.params)),
            r@ == result_response(opt_view(incoming.id), initialize_result()),
    {
        let root = match &incoming.params {
            Some(p) => match as_str(get(p, "rootUri")) {
                Some(u) => crate::workspace::uri_to_path(u),
                None => None,
            },
            None => None,
        };
        match root {
            Some(path) => {
                self.pending_root = Some(path);
            },
            None => {},
        }
        let mut result = String::new();
        push_str(
            &mut result,
            "{\"capabilities\":{\"textDocumentSync\":1,\"documentSymbolProvider\":true,\"hoverProvider\":true,\"definitionProvider\":true,\"completionProvider\":{\"resolveProvider\":false},\"referencesProvider\":true,\"renameProvider\":true},\"serverInfo\":{\"name\":\"my-lisp-lsp\",\"version\":\"0.1.0\"}}",
        );
        proof {
            assert(result@ =~= initialize_result());
        }
        result_response_exec(&incoming.id, result)
    }

    fn dispatch(&mut self, method: &str, incoming: &Incoming) -> (r: Vec<String>)
        requires
            old(self).wf(),
        ensures
            final(self).wf(),
            (final(self)@, texts_of(r@)) == dispatch_spec(
                old(self)@,
                method@,
                opt_view(incoming.id),
                opt_view(incoming.params),
            ),
    {
        let one = |s: String| -> (v: Vec<String>)
            ensures
                texts_of(v@) == seq![s@],
            {
                let v = vec![s];
                proof {
                    assert(texts_of(v@) =~= seq![s@]);
                }
                v
            };
        let none = || -> (v: Vec<String>)
            ensures
                texts_of(v@) == Seq::<Seq<char>>::empty(),
            {
                let v: Vec<String> = Vec::new();
                proof {
                    assert(texts_of(v@) =~= Seq::<Seq<char>>::empty());
                }
                v
            };
        if str_eq(method, "initialize") {
            let r = self.initialize(incoming);
            one(r)
        } else if str_eq(method, "initialized") || str_eq(method, "$/cancelRequest") {
            none()
        } else if str_eq(method, "shutdown") {
            one(null_response_exec(&incoming.id))
        } else if str_eq(method, "exit") {
            none()
        } else if str_eq(method, "textDocument/didOpen") {
            self.did_open(incoming)
        } else if str_eq(method, "textDocument/didChange") {
            self.did_change(incoming)
        } else if str_eq(method, "textDocument/documentSymbol") {
            one(self.document_symbols(incoming))
        } else if str_eq(method, "textDocument/hover") {
            one(self.hover(incoming))
        } else if str_eq(method, "textDocument/definition") {
            one(self.definition(incoming))
        } else if str_eq(method, "textDocument/completion") {
            one(self.completion(incoming))
        } else if str_eq(method, "textDocument/references") {
            one(self.references(incoming))
        } else if str_eq(method, "textDocument/rename") {
            one(self.rename(incoming))
        } else {
            match &incoming.id {
                Some(_) => {
                    let mut msg = String::new();
                    push_str(&mut msg, "method not found: ");
                    push_str(&mut msg, method);
                    one(response(&incoming.id, None, Some((METHOD_NOT_FOUND, msg))))
                },
                None => none(),
            }
        }
    }

    /// Processes one raw JSON-RPC message: every outgoing message
    /// (responses and notifications), in order, unframed.
    pub fn handle_message(&mut self, text: &str) -> (r: Vec<String>)
        requires
            old(self).wf(),
        ensures
            final(self).wf(),
            (final(self)@, texts_of(r@)) == handle_spec(old(self)@, text@),
    {
        let incoming = match decode(text) {
            Ok(incoming) => incoming,
            Err(message) => {
                let mut msg = String::new();
                push_str(&mut msg, "parse error: ");
                push_str(&mut msg, message.as_str());
                let r = vec![response(&None, None, Some((PARSE_ERROR, msg)))];
                proof {
                    assert(texts_of(r@) =~= seq![error_response(None, PARSE_ERROR as int, "parse error: "@ + message@)]);
                }
                return r;
            },
        };
        match &incoming.method {
            Some(m) => self.dispatch(m.as_str(), &incoming),
            None => {
                match &incoming.id {
                    Some(_) => {
                        let r = vec![response(&incoming.id, None, Some((INVALID_REQUEST, owned("missing method"))))];
                        proof {
                            assert(texts_of(r@) =~= seq![error_response(opt_view(incoming.id), INVALID_REQUEST as int, "missing method"@)]);
                        }
                        r
                    },
                    None => {
                        let r: Vec<String> = Vec::new();
                        proof {
                            assert(texts_of(r@) =~= Seq::<Seq<char>>::empty());
                        }
                        r
                    },
                }
            },
        }
    }

    /// Whether a raw message is the `exit` notification.
    pub fn wants_exit(text: &str) -> (r: bool)
        ensures
            r == wants_exit_spec(text@),
    {
        match decode(text) {
            Ok(incoming) => match &incoming.method {
                Some(m) => string_eq(m, "exit"),
                None => false,
            },
            Err(_) => false,
        }
    }

    /// The workspace root an `initialize` asked for and that is not yet
    /// scanned; asking clears it.
    pub fn take_root_request(&mut self) -> (r: Option<String>)
        requires
            old(self).wf(),
        ensures
            final(self).wf(),
            match r {
                Some(p) => old(self)@.pending_root == Some(p@),
                None => old(self)@.pending_root is None,
            },
            final(self)@ == (ServerView { pending_root: None, ..old(self)@ }),
    {
        let r = self.pending_root.take();
        r
    }

    /// Replaces the workspace index by the scan of `root`: its source files
    /// as (URI, text), in scan order, none beyond the scan cap.
    pub fn index_root(&mut self, root: String, files: &Vec<(String, String)>)
        requires
            old(self).wf(),
            forall|k: int| 0 <= k < files@.len() ==> utf8_len(#[trigger] files@[k].1@) <= SCAN_MAX_BYTES,
        ensures
            final(self).wf(),
            final(self)@.documents == old(self)@.documents,
            final(self)@.pending_root == old(self)@.pending_root,
            final(self)@.index.root == Some(root@),
            final(self)@.index.texts == indexed(pairs_view(files@)).texts,
            final(self)@.index.defs == indexed(pairs_view(files@)).defs,
    {
        proof {
            let fs = pairs_view(files@);
            assert(fs =~= Seq::new(files@.len(), |i: int| (files@[i].0@, files@[i].1@)));
            assert forall|k: int| 0 <= k < fs.len() implies utf8_len(#[trigger] fs[k].1) <= SCAN_MAX_BYTES by {
                assert(fs[k].1 == files@[k].1@);
            }
            lemma_indexed_fits(fs);
        }
        self.workspace.index_root(root, files);
    }
}

} // verus!
