use lib::guard_knowledge::{parse_functions, parse_topics, topics_readable, functions_readable, GuardKnowledge};
use lib::language_items::{Arity, LanguageItemKind};

const SAMPLE_REFERENCE: &str = r#"(def *guard-reference-directory*
  (quote
    ((reference
       (topic language-semantics)
       (summary "Meaning of WSM programs")
       (authority (language-contract.my docs/language-core-axioms.md))
       (how-to (read-contract run-conformance-fixtures))
       (verify (cargo-test-workspace evidence/README.md))
       (lifecycle current-contract)
       (provenance my-lisp commit abc123)
       (unknown-route ask-agent))
     (reference
       (topic second-topic)
       (summary "Another")
       (authority (file.md))
       (how-to (step))
       (verify (check))
       (lifecycle current-design)
       (provenance repo commit def456)
       (unknown-route research-web)))))"#;

#[test]
fn parses_reference_topics() {
    let topics = parse_topics(SAMPLE_REFERENCE);
    assert_eq!(topics.len(), 2);
    let semantics = topics.get("language-semantics").unwrap();
    assert_eq!(semantics.summary, "Meaning of WSM programs");
    assert_eq!(
        semantics.authority,
        vec!["language-contract.my", "docs/language-core-axioms.md"]
    );
    assert_eq!(semantics.how_to, vec!["read-contract", "run-conformance-fixtures"]);
    assert_eq!(
        semantics.verify,
        vec!["cargo-test-workspace", "evidence/README.md"]
    );
    assert_eq!(semantics.lifecycle, "current-contract");
    assert_eq!(semantics.unknown_route, "ask-agent");
}

#[test]
fn ignores_entries_without_topic() {
    let broken = SAMPLE_REFERENCE.replace("(topic language-semantics)", "(topic )");
    let topics = parse_topics(&broken);
    assert_eq!(topics.len(), 1);
    assert!(topics.contains_key("second-topic"));
}

#[test]
fn unbalanced_file_gives_empty_not_panic() {
    let topics = parse_topics("(def x 1))");
    assert!(topics.is_empty());
}

#[test]
fn parses_lambda_arities() {
    let source = "(def guard-unknown (lambda (subject missing-evidence guidance) x))\n(def make-guard-finding (lambda (a b c d e f g h i) x))\n(def data-thing (quote (1 2)))\n";
    let functions = parse_functions(source);
    assert_eq!(functions.len(), 2);
    assert_eq!(functions.get("guard-unknown").unwrap().arity, 3);
    assert_eq!(functions.get("make-guard-finding").unwrap().arity, 9);
    // data def (no lambda) must not become a callable
    assert!(!functions.contains_key("data-thing"));
}

#[test]
fn provenance_keeps_only_its_first_value() {
    let topics = parse_topics(SAMPLE_REFERENCE);
    assert_eq!(topics.get("second-topic").unwrap().provenance, "repo");
    assert_eq!(topics.get("second-topic").unwrap().summary, "Another");
}

#[test]
fn later_entry_of_the_same_topic_replaces_the_earlier() {
    let source = "(def *guard-reference-directory* (quote ((reference (topic a) (summary \"one\")) (reference (topic a) (summary \"two\")))))";
    let topics = parse_topics(source);
    assert_eq!(topics.len(), 1);
    assert_eq!(topics.get("a").unwrap().summary, "two");
}

#[test]
fn a_directory_with_an_empty_top_level_list_is_not_readable() {
    assert!(!topics_readable("()"));
    assert!(!topics_readable("(def)"));
    assert!(topics_readable(SAMPLE_REFERENCE));
    assert!(!functions_readable("(def f ())"));
    assert!(functions_readable("(def f (lambda (x) x))"));
}

#[test]
fn knowledge_loads_functions_and_renders_their_source() {
    let guard = "(def guard-unknown (lambda (a b) a))\n".to_string();
    let mut knowledge = GuardKnowledge::load_functions(
        "file:///r/knowledge/guard-reference.wsm".to_string(),
        Some(("file:///r/lib/guard.wsm".to_string(), guard)),
    );
    assert!(!knowledge.topics_loaded);
    let f = knowledge.function("guard-unknown").unwrap();
    assert_eq!(knowledge.source_of(f).unwrap(), "(def guard-unknown (lambda (a b) a))");
    let items = knowledge.arity_items();
    assert_eq!(items.len(), 1);
    assert_eq!(items[0].0, "guard-unknown");
    assert_eq!(items[0].1, LanguageItemKind::Builtin);
    assert_eq!(items[0].2, Arity::Exact(2));
    knowledge.load_topics(SAMPLE_REFERENCE);
    assert!(knowledge.topics_loaded);
    assert!(knowledge.topic("second-topic").is_some());
    assert!(knowledge.topic("absent").is_none());
}

#[test]
fn knowledge_without_a_guard_library_is_empty() {
    let knowledge = GuardKnowledge::load("file:///r/ref.wsm".to_string(), "", None);
    assert!(knowledge.functions.is_empty());
    assert!(knowledge.topics.is_empty());
    assert!(knowledge.guard_file_uri.is_none());
}
