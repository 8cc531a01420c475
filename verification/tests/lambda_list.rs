use lib::error::ErrorKind;
use lib::lambda_list::parse_lambda_list;
use lib::reader::parse;

fn params(source: &str) -> Result<(Vec<String>, Option<String>), (ErrorKind, String)> {
    let forms = parse(source).expect("parses");
    parse_lambda_list(&forms[0]).map_err(|e| (e.kind, e.message))
}

#[test]
fn fixed_dotted_and_bare_symbol_shapes() {
    assert_eq!(params("(a b)"), Ok((vec!["a".to_string(), "b".to_string()], None)));
    assert_eq!(params("(a b . rest)"), Ok((vec!["a".to_string(), "b".to_string()], Some("rest".to_string()))));
    assert_eq!(params("args"), Ok((vec![], Some("args".to_string()))));
    assert_eq!(params("()"), Ok((vec![], None)));
}

#[test]
fn malformed_lambda_lists_are_invalid_forms() {
    let (kind, message) = params("(a a)").unwrap_err();
    assert_eq!(kind, ErrorKind::InvalidForm);
    assert!(message.ends_with(": a"));
    assert!(message.starts_with("duplicate lambda parameter"));
    let (_, message) = params("(a . a)").unwrap_err();
    assert!(message.starts_with("duplicate lambda parameter"));
    let (_, message) = params("(a 1)").unwrap_err();
    assert!(message.starts_with("lambda parameter must be a symbol"));
    let (_, message) = params("(a . 1)").unwrap_err();
    assert!(message.starts_with("rest parameter must be a symbol"));
    let (_, message) = params("5").unwrap_err();
    assert!(message.starts_with("lambda parameters must be a list"));
}
