use lib::language_items::{builtin_metadata, semantic_language_items_with, semantic_tooling, Arity, LanguageItemKind, SurfacePolicy};

#[test]
fn semantic_tooling_keys_are_numeric_identities_only() {
    assert!(semantic_tooling().iter().all(|metadata| {
        !metadata.semantic_id.is_empty()
            && metadata.semantic_id.bytes().all(|byte| byte.is_ascii_digit())
    }));
}

#[test]
fn tooling_table_lists_the_syntax_forms_in_order() {
    let table = semantic_tooling();
    let ids: Vec<&str> = table.iter().map(|m| m.semantic_id).collect();
    assert_eq!(ids, vec!["0001", "0007", "0010", "0011", "0012", "1000"]);
    assert_eq!(table[4].kind, LanguageItemKind::Macro);
    assert_eq!(table[4].surface_policy, SurfacePolicy::Admitted);
    assert_eq!(table[0].surface_policy, SurfacePolicy::Stable);
    assert_eq!(table[3].arity, Arity::Exact(2));
}

#[test]
fn arity_accepts_exactly_its_counts() {
    assert!(Arity::Exact(2).accepts(2));
    assert!(!Arity::Exact(2).accepts(3));
    assert!(Arity::AtLeast(1).accepts(5));
    assert!(!Arity::AtLeast(1).accepts(0));
    assert!(Arity::Between { min: 1, max: 3 }.accepts(3));
    assert!(!Arity::Between { min: 1, max: 3 }.accepts(4));
}

#[test]
fn arity_expectation_text() {
    assert_eq!(Arity::Exact(2).expected(), "2");
    assert_eq!(Arity::AtLeast(1).expected(), "at least 1");
    assert_eq!(Arity::Between { min: 0, max: 1 }.expected(), "between 0 and 1");
}

#[test]
fn builtin_metadata_has_entries_and_a_fallback() {
    assert_eq!(builtin_metadata("+"), ("(+ number ...)", "Sum all arguments", Arity::AtLeast(0)));
    assert_eq!(builtin_metadata("eval").2, Arity::Exact(1));
    assert_eq!(
        builtin_metadata("no-such-operation"),
        ("(builtin ...)", "First-class runtime builtin", Arity::AtLeast(0))
    );
}

#[test]
fn syntax_form_items_follow_the_surface_policy() {
    let p = |a: &str, b: &str| (a.to_string(), b.to_string());
    let stable = vec![p("0010", "lambda"), p("0001", "quote"), p("0010", "функція"), p("1000", "def")];
    let admitted = vec![p("1000", "def"), p("0012", "defmacro"), p("0001", "quote")];
    let items = semantic_language_items_with(&stable, &admitted);
    let names: Vec<&str> = items.iter().map(|i| i.name.as_str()).collect();
    assert_eq!(names, vec!["quote", "lambda", "функція", "defmacro", "def"]);
    assert_eq!(items[1].semantic_id, Some("0010"));
    assert_eq!(items[1].signature, "(lambda (params) body ...)");
    assert_eq!(items[3].kind, LanguageItemKind::Macro);
    assert_eq!(items[4].documentation, "Compatibility-only binding form");
    assert!(semantic_language_items_with(&Vec::new(), &Vec::new()).is_empty());
}
