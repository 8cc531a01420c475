use lib::Harness as Server;

fn raw(m: &str) -> String {
    m.to_string()
}

const VALID_DOC: &str = "; a comment mentioning mystery_word\n(def answer 42)\n(defmacro unless (cond body) (list 'if cond body))\n";

fn json_string(s: &str) -> String {
    let mut out = String::from("\"");
    for ch in s.chars() {
        match ch {
            '"' => out.push_str("\\\""),
            '\\' => out.push_str("\\\\"),
            '\n' => out.push_str("\\n"),
            c => out.push(c),
        }
    }
    out.push('"');
    out
}

fn open_msg(uri: &str, text: &str) -> String {
    format!(
        r#"{{"jsonrpc":"2.0","method":"textDocument/didOpen","params":{{"textDocument":{{"uri":{uri},"languageId":"my-lisp","version":1,"text":{text}}}}}}}"#,
        uri = json_string(uri),
        text = json_string(text),
    )
}

fn symbols_msg(uri: &str) -> String {
    format!(
        r#"{{"jsonrpc":"2.0","id":99,"method":"textDocument/documentSymbol","params":{{"textDocument":{{"uri":{}}}}}}}"#,
        json_string(uri)
    )
}

fn hover_msg(uri: &str, line: u32, character: u32) -> String {
    format!(
        r#"{{"jsonrpc":"2.0","id":98,"method":"textDocument/hover","params":{{"textDocument":{{"uri":{}}},"position":{{"line":{line},"character":{character}}}}}}}"#,
        json_string(uri)
    )
}

fn request(id: u32, method: &str, params: &str) -> String {
    format!(r#"{{"jsonrpc":"2.0","id":{id},"method":"{method}","params":{params}}}"#)
}

fn symbols_for(doc: &str) -> (String, String) {
    let mut server = Server::new();
    let open = format!(
        r#"{{"jsonrpc":"2.0","method":"textDocument/didOpen","params":{{"textDocument":{{"uri":"file:///s.my","languageId":"my-lisp","version":1,"text":{}}}}}}}"#,
        json_string(doc)
    );
    let symbols = r#"{"jsonrpc":"2.0","id":7,"method":"textDocument/documentSymbol","params":{"textDocument":{"uri":"file:///s.my"}}}"#;
    let replies = server.feed(&[open, symbols.to_string()]);
    assert_eq!(replies.len(), 2);
    (replies[1].clone(), replies[0].clone())
}

#[test]
fn t01_initialize_returns_m0_capabilities() {
    let mut server = Server::new();
    let replies = server.feed(&[raw(r#"{"jsonrpc":"2.0","id":1,"method":"initialize","params":{}}"#)]);
    assert_eq!(replies.len(), 1);
    let r = replies[0].as_str();
    assert!(r.contains("\"capabilities\""), "{r}");
    assert!(r.contains("\"textDocumentSync\":1"), "{r}");
    assert!(r.contains("\"documentSymbolProvider\":true"), "{r}");
    assert!(r.contains("\"hoverProvider\":true"), "{r}");
    assert!(r.contains("\"definitionProvider\":true"), "{r}");
    assert!(r.contains("\"referencesProvider\":true"), "{r}");
    assert!(r.contains("\"renameProvider\":true"), "{r}");
    assert!(r.contains("\"completionProvider\""), "M1 completion advertised: {r}");
}

#[test]
fn t02_valid_document_produces_no_false_diagnostics() {
    let mut server = Server::new();
    let open = format!(
        r#"{{"jsonrpc":"2.0","method":"textDocument/didOpen","params":{{"textDocument":{{"uri":"file:///t.my","languageId":"my-lisp","version":1,"text":{}}}}}}}"#,
        json_string(VALID_DOC)
    );
    let replies = server.feed(&[open]);
    assert_eq!(replies.len(), 1);
    let r = replies[0].as_str();
    assert!(r.contains("publishDiagnostics"), "{r}");
    assert!(r.contains("\"diagnostics\":[]"), "no false diagnostics: {r}");
}

#[test]
fn t03_invalid_document_produces_real_diagnostic() {
    let mut server = Server::new();
    let bad = "(def x 1)\n(def broken\n";
    let open = format!(
        r#"{{"jsonrpc":"2.0","method":"textDocument/didOpen","params":{{"textDocument":{{"uri":"file:///bad.my","languageId":"my-lisp","version":1,"text":{}}}}}}}"#,
        json_string(bad)
    );
    let replies = server.feed(&[open]);
    assert_eq!(replies.len(), 1);
    let r = replies[0].as_str();
    assert!(r.contains("publishDiagnostics"), "{r}");
    assert!(!r.contains("\"diagnostics\":[]"), "must contain a diagnostic: {r}");
    assert!(r.contains("\"severity\":1"), "{r}");
    assert!(r.contains("\"source\":\"my-lisp\""), "{r}");
    assert!(r.contains("\"start\":{\"line\":1"), "{r}");
}

#[test]
fn t04_document_symbol_finds_def() {
    let (reply, _) = symbols_for(VALID_DOC);
    assert!(reply.contains("\"name\":\"answer\""), "{reply}");
    assert!(reply.contains("\"detail\":\"def\""), "{reply}");
    assert!(reply.contains("\"selectionRange\":{\"start\":{\"line\":1,\"character\":5}"), "{reply}");
    assert!(!reply.contains("mystery_word"), "{reply}");
}

#[test]
fn t05_document_symbol_finds_defmacro() {
    let (reply, _) = symbols_for(VALID_DOC);
    assert!(reply.contains("\"name\":\"unless\""), "{reply}");
    assert!(reply.contains("\"detail\":\"defmacro\""), "{reply}");
}

#[test]
fn t06_hover_on_known_definition_is_useful() {
    let mut server = Server::new();
    let doc = "(def greeting \"hello\")\n(print greeting)\n";
    let open = open_msg("file:///h.my", doc);
    let hover = hover_msg("file:///h.my", 1, 8);
    let replies = server.feed(&[open, hover]);
    assert_eq!(replies.len(), 2);
    let r = &replies[1];
    assert!(r.contains("\"result\":{\"contents\":{\"kind\":\"markdown\""), "{r}");
    assert!(r.contains("**def** `greeting`"), "{r}");
    assert!(r.contains("(def greeting \\\"hello\\\")"), "{r}");

    let mut shadow_server = Server::new();
    let shadow_doc = "(def max 42)\n(max)\n";
    let replies = shadow_server.feed(&[
        open_msg("file:///shadow.my", shadow_doc),
        hover_msg("file:///shadow.my", 1, 2),
    ]);
    let shadow = &replies[1];
    assert!(shadow.contains("**def** `max`"), "local max must win: {shadow}");
    assert!(!shadow.contains("**builtin**"), "builtin metadata leaked: {shadow}");
}

#[test]
fn t07_definition_resolves_to_correct_range() {
    let mut server = Server::new();
    let doc = "(def target (+ 1 2))\n(+ target 10)\n";
    let open = open_msg("file:///d.my", doc);
    let goto =
        r#"{"jsonrpc":"2.0","id":3,"method":"textDocument/definition","params":{"textDocument":{"uri":"file:///d.my"},"position":{"line":1,"character":3}}}"#.to_string();
    let replies = server.feed(&[open, goto]);
    assert_eq!(replies.len(), 2);
    let r = &replies[1];
    assert!(
        r.contains("\"uri\":\"file:///d.my\"") && r.contains("\"range\":{\"start\":{\"line\":0,\"character\":5},\"end\":{\"line\":0,\"character\":11}}"),
        "{r}"
    );
}

#[test]
fn t08_symbols_in_strings_and_comments_are_not_definitions() {
    let mut server = Server::new();
    let doc = "; (def commented-out 1)\n(print \"(def in-string 2)\")\n(def real-def 3)\n";
    let open = open_msg("file:///c.my", doc);
    let symbols = symbols_msg("file:///c.my");
    let replies = server.feed(&[open, symbols]);
    let r = &replies[1];
    assert!(r.contains("real-def"), "{r}");
    assert!(!r.contains("commented-out"), "comment text leaked as symbol: {r}");
    assert!(!r.contains("in-string"), "string text leaked as symbol: {r}");
}

#[test]
fn t09_malformed_input_does_not_crash() {
    let mut server = Server::new();
    let replies = server.feed(&["this is not json {{{".to_string()]);
    assert_eq!(replies.len(), 1);
    assert!(replies[0].contains("-32700"), "ParseError expected: {}", replies[0]);
    let replies = server.feed(&[
        r#"{"jsonrpc":"2.0","id":9,"method":"workspace/executeCommand","params":{}}"#.to_string(),
        r#"{"jsonrpc":"2.0","method":"$/unknownNotification","params":{}}"#.to_string(),
        r#"{"jsonrpc":"2.0"}"#.to_string(),
    ]);
    assert_eq!(replies.len(), 1);
    assert!(replies[0].contains("-32601"), "{}", replies[0]);
    let open = open_msg("file:///ok.my", "(def alive t)");
    let symbols = symbols_msg("file:///ok.my");
    let replies = server.feed(&[open, symbols]);
    assert!(replies[1].contains("\"name\":\"alive\""), "{}", replies[1]);
}

/// The builtins the runtime installs in its root environment.
const RUNTIME_BUILTINS: [&str; 29] = [
    "car", "cdr", "cons", "eq", "atom", "abs", "min-list", "max-list", "min", "max",
    "make-vector", "vector", "mono-ns", "utc-now", "internet-time-sync", "timezone-detect",
    "vector-length", "vector-ref", "vector-set!", "i32-buffer", "f32-buffer", "string-slice",
    "numeric-buffer?", "numeric-buffer-type", "numeric-buffer-length", "numeric-buffer-ref",
    "numeric-buffer-map", "/", "env",
];

#[test]
fn t11_completion_offers_builtins_and_local_defs() {
    let mut server = Server::new();
    let open = raw(&open_msg("file:///w.my", "(def alpha 1)\n(al )\n"));
    let init = request(1, "initialize", "{}");
    server.feed(&[raw(&init), open]);
    let params = r#"{"textDocument":{"uri":"file:///w.my"},"position":{"line":1,"character":3}}"#;
    let replies = server.feed(&[raw(&request(8, "textDocument/completion", params))]);
    assert_eq!(replies.len(), 1);
    let r = replies[0].as_str();
    assert!(r.contains("alpha"), "local def must be offered: {r}");
    assert!(!r.contains("\"label\":\"+\""), "prefix filter must drop '+': {r}");
    server.feed(&[open_msg("file:///w2.my", "\n")]);
    let params2 = r#"{"textDocument":{"uri":"file:///w2.my"},"position":{"line":0,"character":0}}"#;
    let replies2 = server.feed(&[raw(&request(9, "textDocument/completion", params2))]);
    let r2 = replies2[0].as_str();
    assert!(r2.contains("\"label\":\"+\"") || r2.contains("\"+\""), "builtin + must be offered on empty prefix: {r2}");
    for name in RUNTIME_BUILTINS {
        let label = format!("\"label\":\"{name}\"");
        assert!(r2.contains(&label), "runtime builtin {name} must be offered by completion: {r2}");
    }
    let mut shadow_server = Server::new();
    shadow_server.feed(&[open_msg("file:///shadow-completion.my", "(def max 42)\n(ma )\n")]);
    let shadow_params = r#"{"textDocument":{"uri":"file:///shadow-completion.my"},"position":{"line":1,"character":3}}"#;
    let shadow_reply = shadow_server.feed(&[raw(&request(10, "textDocument/completion", shadow_params))]);
    let shadow = &shadow_reply[0];
    assert!(
        shadow.contains("\"label\":\"max\",\"kind\":3,\"detail\":\"local def\""),
        "local completion metadata must shadow builtin max: {shadow}"
    );
}

#[test]
fn hover_on_a_builtin_shows_its_documentation() {
    let mut server = Server::new();
    let replies = server.feed(&[open_msg("file:///b.my", "(car x)"), hover_msg("file:///b.my", 0, 2)]);
    assert!(replies[1].contains("**builtin** `car`"), "{}", replies[1]);
}

#[test]
fn hover_elsewhere_is_null() {
    let mut server = Server::new();
    let replies = server.feed(&[open_msg("file:///n.my", "(foo x)"), hover_msg("file:///n.my", 0, 2)]);
    assert_eq!(replies[1], "{\"jsonrpc\":\"2.0\",\"id\":98,\"result\":null}");
}

#[test]
fn shutdown_answers_null_and_exit_is_skipped() {
    let mut server = Server::new();
    let replies = server.feed(&[
        raw(r#"{"jsonrpc":"2.0","id":"s1","method":"shutdown"}"#),
        raw(r#"{"jsonrpc":"2.0","method":"exit"}"#),
    ]);
    assert_eq!(replies, vec!["{\"jsonrpc\":\"2.0\",\"id\":\"s1\",\"result\":null}".to_string()]);
}

#[test]
fn missing_method_with_id_is_an_invalid_request() {
    let mut server = Server::new();
    let replies = server.feed(&[raw(r#"{"id":4}"#)]);
    assert_eq!(
        replies,
        vec!["{\"jsonrpc\":\"2.0\",\"id\":4,\"error\":{\"code\":-32600,\"message\":\"missing method\"}}".to_string()]
    );
}

#[test]
fn references_and_rename_within_open_documents() {
    let mut server = Server::new();
    server.feed(&[
        open_msg("file:///a.my", "(def target 1)\n(target 2)\n"),
        open_msg("file:///b.my", "(quote target)\n(list target)\n"),
    ]);
    let params = r#"{"textDocument":{"uri":"file:///a.my"},"position":{"line":1,"character":2},"context":{"includeDeclaration":false}}"#;
    let replies = server.feed(&[raw(&request(5, "textDocument/references", params))]);
    let r = replies[0].as_str();
    assert_eq!(2, r.matches("\"uri\"").count(), "{r}");
    let params = r#"{"textDocument":{"uri":"file:///a.my"},"position":{"line":1,"character":2},"newName":"renamed"}"#;
    let replies = server.feed(&[raw(&request(6, "textDocument/rename", params))]);
    let r = replies[0].as_str();
    assert_eq!(3, r.matches("\"newText\":\"renamed\"").count(), "{r}");
    let bad = r#"{"textDocument":{"uri":"file:///a.my"},"position":{"line":1,"character":2},"newName":"9bad"}"#;
    let replies = server.feed(&[raw(&request(7, "textDocument/rename", bad))]);
    assert!(replies[0].contains("-32602"), "{}", replies[0]);
}

#[test]
fn initialize_records_the_workspace_root() {
    let mut server = Server::new();
    server.feed(&[raw(r#"{"jsonrpc":"2.0","id":1,"method":"initialize","params":{"rootUri":"file:///tmp/my%20ws"}}"#)]);
    assert_eq!(server.take_root_request(), Some("/tmp/my ws".to_string()));
    assert_eq!(server.take_root_request(), None);
}

#[test]
fn workspace_definition_resolves_across_indexed_files() {
    let mut server = Server::new();
    server.index_root(
        "/w".to_string(),
        &vec![("file:///w/a.my".to_string(), "(def foo (lambda (x) x))\n".to_string())],
    );
    server.feed(&[open_msg("file:///w/b.my", "(foo 21)\n")]);
    let params = r#"{"textDocument":{"uri":"file:///w/b.my"},"position":{"line":0,"character":1}}"#;
    let replies = server.feed(&[raw(&request(7, "textDocument/definition", params))]);
    assert!(replies[0].contains("\"uri\":\"file:///w/a.my\""), "{}", replies[0]);
    assert!(replies[0].contains("\"range\":{\"start\":{\"line\":0,\"character\":5}"), "{}", replies[0]);
}

const M1_ROOT: &str = "/work/lsp-m1";
const M2_ROOT: &str = "/work/lsp-m2";

/// Initializes `server` on `root` and hands it the files a scan of the root
/// finds, as the stdio front end does.
fn initialize_on(server: &mut Server, root: &str, files: &[(&str, &str)]) {
    let init = request(1, "initialize", &format!(r#"{{"rootUri":{}}}"#, json_string(&format!("file://{root}"))));
    server.feed(&[raw(&init)]);
    let requested = server.take_root_request().expect("initialize names the root");
    assert_eq!(requested, root);
    let scanned: Vec<(String, String)> = files
        .iter()
        .map(|(name, text)| (format!("file://{root}/{name}"), text.to_string()))
        .collect();
    server.index_root(requested, &scanned);
}

fn m1_files() -> Vec<(&'static str, &'static str)> {
    vec![("a.my", "(def foo (lambda (x) (* x x)))\n"), ("b.my", "(foo 21)\n")]
}

fn m2_files() -> Vec<(&'static str, &'static str)> {
    vec![
        ("defs.my", "(def target (lambda (x) x))\n"),
        ("use1.my", "(target 1)\n"),
        ("use2.my", "(quote target)\n(list target)\n"),
    ]
}

fn did_open(uri: &str, text: &str) -> String {
    open_msg(uri, text)
}

#[test]
fn t10_workspace_definition_resolves_across_files() {
    let b_uri = format!("file://{M1_ROOT}/b.my");
    let mut server = Server::new();
    initialize_on(&mut server, M1_ROOT, &m1_files());
    server.feed(&[raw(&did_open(&b_uri, "(foo 21)\n"))]);
    let params = format!(
        r#"{{"textDocument":{{"uri":{}}},"position":{{"line":0,"character":1}}}}"#,
        json_string(&b_uri)
    );
    let replies = server.feed(&[raw(&request(7, "textDocument/definition", &params))]);
    assert_eq!(replies.len(), 1);
    let r = replies[0].as_str();
    assert!(r.contains("/a.my"), "cross-file definition must point into a.my: {r}");
    assert!(r.contains("\"range\""), "definition must carry a range: {r}");
}

#[test]
fn t12_references_cross_file_excludes_quoted_data() {
    let use1 = format!("file://{M2_ROOT}/use1.my");
    let mut server = Server::new();
    initialize_on(&mut server, M2_ROOT, &m2_files());
    server.feed(&[raw(&did_open(&use1, "(target 1)\n"))]);
    let params = format!(
        r#"{{"textDocument":{{"uri":{}}},"position":{{"line":0,"character":1}},"context":{{"includeDeclaration":true}}}}"#,
        json_string(&use1)
    );
    let replies = server.feed(&[raw(&request(5, "textDocument/references", &params))]);
    let r = replies[0].as_str();
    assert_eq!(3, r.matches("\"uri\"").count(), "expected 3 locations: {r}");
    assert!(r.contains("defs.my"), "{r}");
    assert!(!r.contains("quote") || !r.contains("(quote"), "quoted data must be excluded: {r}");
}

#[test]
fn t13_references_exclude_declaration_when_asked() {
    let use1 = format!("file://{M2_ROOT}/use1.my");
    let mut server = Server::new();
    initialize_on(&mut server, M2_ROOT, &m2_files());
    server.feed(&[raw(&did_open(&use1, "(target 1)\n"))]);
    let params = format!(
        r#"{{"textDocument":{{"uri":{}}},"position":{{"line":0,"character":1}},"context":{{"includeDeclaration":false}}}}"#,
        json_string(&use1)
    );
    let replies = server.feed(&[raw(&request(6, "textDocument/references", &params))]);
    let r = replies[0].as_str();
    assert_eq!(2, r.matches("\"uri\"").count(), "declaration excluded → 2 refs: {r}");
}

#[test]
fn t14_rename_produces_cross_file_edits_and_validates_name() {
    let use1 = format!("file://{M2_ROOT}/use1.my");
    let mut server = Server::new();
    initialize_on(&mut server, M2_ROOT, &m2_files());
    server.feed(&[raw(&did_open(&use1, "(target 1)\n"))]);
    let params = format!(
        r#"{{"textDocument":{{"uri":{}}},"position":{{"line":0,"character":1}},"newName":"renamed-thing"}}"#,
        json_string(&use1)
    );
    let replies = server.feed(&[raw(&request(7, "textDocument/rename", &params))]);
    let r = replies[0].as_str();
    assert!(r.contains("\"changes\""), "{r}");
    assert_eq!(3, r.matches("\"newText\":\"renamed-thing\"").count(), "def + 2 code usages renamed; quoted data excluded: {r}");
    let use2_section = r.split("use2.my").nth(1).unwrap_or("");
    assert!(use2_section.contains("\"line\":1,"), "use2 edits start at line 1: {r}");
    assert!(r.contains("defs.my"), "{r}");
    let bad = format!(
        r#"{{"jsonrpc":"2.0","id":8,"method":"textDocument/rename","params":{{"textDocument":{{"uri":{}}},"position":{{"line":0,"character":1}},"newName":"9bad"}}}}"#,
        json_string(&use1)
    );
    let replies = server.feed(&[raw(&bad)]);
    let r = replies[0].as_str();
    assert!(r.contains("\"error\"") || r.contains("-32602"), "invalid name must be rejected: {r}");
}
