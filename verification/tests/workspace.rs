use lib::workspace::{is_source_extension, path_to_uri, uri_to_path, WorkspaceIndex};

#[test]
fn update_document_replaces_a_documents_definitions() {
    let mut index = WorkspaceIndex::new();
    index.update_document("file:///a.my", "(def x 1)\n(def y 2)");
    index.update_document("file:///b.my", "(def x 3)");
    assert_eq!(index.lookup("x").len(), 2);
    index.update_document("file:///a.my", "(def z 1)");
    let xs = index.lookup("x");
    assert_eq!(xs.len(), 1);
    assert_eq!(xs[0].uri, "file:///b.my");
    assert_eq!(index.lookup("z").len(), 1);
    assert!(index.lookup("y").is_empty());
    assert_eq!(index.all_texts(), vec!["file:///a.my".to_string(), "file:///b.my".to_string()]);
    assert_eq!(index.text_of("file:///a.my"), Some("(def z 1)"));
    assert_eq!(index.lookup_all().len(), 2);
}

#[test]
fn a_document_that_does_not_parse_keeps_its_text_but_no_definitions() {
    let mut index = WorkspaceIndex::new();
    index.update_document("file:///a.my", "(def x 1)");
    index.update_document("file:///a.my", "(def x");
    assert!(index.lookup("x").is_empty());
    assert_eq!(index.text_of("file:///a.my"), Some("(def x"));
    assert!(index.root().is_none());
}

#[test]
fn index_root_replaces_the_index() {
    let mut index = WorkspaceIndex::new();
    index.update_document("file:///old.my", "(def old 1)");
    index.index_root("/w".to_string(), &vec![("file:///w/a.my".to_string(), "(def new 1)".to_string())]);
    assert_eq!(index.root(), Some("/w"));
    assert!(index.lookup("old").is_empty());
    assert_eq!(index.lookup("new").len(), 1);
}

#[test]
fn uris_encode_and_decode_paths() {
    assert_eq!(path_to_uri("/tmp/a b/мій.my"), "file:///tmp/a%20b/%D0%BC%D1%96%D0%B9.my");
    assert_eq!(uri_to_path("file:///tmp/a%20b/%D0%BC%D1%96%D0%B9.my"), Some("/tmp/a b/мій.my".to_string()));
    assert_eq!(uri_to_path("http://x"), None);
    assert_eq!(uri_to_path("file:///a%zz"), None);
    assert_eq!(uri_to_path("file:///a%FF%FF"), None);
    assert_eq!(uri_to_path("file:///a%"), Some("/a%".to_string()));
}

#[test]
fn source_extensions_include_the_cyrillic_spellings() {
    for ext in ["wsm", "my", "lisp", "всм", "мій", "лісп"] {
        assert!(is_source_extension(ext), "{ext}");
    }
    assert!(!is_source_extension("txt"));
}

#[test]
fn updating_again_with_the_same_text_changes_nothing() {
    let mut index = WorkspaceIndex::new();
    index.update_document("file:///a.my", "(def x 1)");
    index.update_document("file:///b.my", "(def y 2)");
    let before: Vec<(String, String)> = index.lookup_all().into_iter().map(|d| (d.name, d.uri)).collect();
    index.update_document("file:///b.my", "(def y 2)");
    let after: Vec<(String, String)> = index.lookup_all().into_iter().map(|d| (d.name, d.uri)).collect();
    assert_eq!(before, after);
    assert_eq!(index.text_of("file:///b.my"), Some("(def y 2)"));
    assert_eq!(index.text_of("file:///a.my"), Some("(def x 1)"));
    assert_eq!(index.all_texts().len(), 2);
}
