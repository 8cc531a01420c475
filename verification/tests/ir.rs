use lib::canon::CanonicalIdentity;
use lib::ir::{classify_syntax_id, explain, lower, IrNode, KnownSyntaxId, LoweringError, Provenance};
use lib::necessary_forms::NecessaryFormIdentity;
use lib::reader::parse;
use lib::status_registry::parse_rows;

const REGISTRY: &str = "(0001 (en quote stable) (uk як-є stable))\n(0005 (en car stable) (uk перше stable))\n(0007 (en cond stable))\n(0010 (en lambda stable) (uk функція stable))\n(0011 (en define stable) (uk визначити stable))\n(0012 (en defmacro stable))\n(0104 (sym + stable))\n(1000 (en def compatibility))";

fn lower_source(source: &str) -> Result<IrNode, LoweringError> {
    let rows = parse_rows(REGISTRY);
    let forms = parse(source).expect("source should parse");
    assert_eq!(forms.len(), 1);
    lower(&rows, &forms[0])
}

#[test]
fn an_unrecognized_syntax_identity_is_rejected_not_guessed() {
    assert_eq!(classify_syntax_id("0001"), Some(KnownSyntaxId::Quote));
    assert_eq!(classify_syntax_id("9999"), None);
}

#[test]
fn quote_preserves_datum_unlowered() {
    assert!(matches!(lower_source("(quote (a b c))").unwrap(), IrNode::Quote { .. }));
    assert!(matches!(lower_source("(як-є x)").unwrap(), IrNode::Quote { .. }));
}

#[test]
fn canon_value_primitives_are_ordinary_applications_with_canon_provenance() {
    let IrNode::Apply { callee, args, .. } = lower_source("(car (quote (1 2)))").unwrap() else {
        panic!("expected Apply");
    };
    assert_eq!(args.len(), 1);
    let IrNode::VariableRef { provenance, .. } = *callee else {
        panic!("expected VariableRef callee");
    };
    assert!(matches!(provenance, Provenance::Canon(CanonicalIdentity::Car)));
}

const REGISTRY_DEF_STABLE: &str = "(0010 (en lambda stable))\n(0011 (en define stable) (en def stable))\n(0012 (en defmacro stable))";

#[test]
fn lambda_and_define_carry_necessary_form_shape() {
    assert!(matches!(lower_source("(lambda (x) x)").unwrap(), IrNode::Lambda { .. }));
    assert!(matches!(lower_source("(функція (x) x)").unwrap(), IrNode::Lambda { .. }));
    assert!(matches!(lower_source("(define x 1)").unwrap(), IrNode::Define { .. }));
    let rows = parse_rows(REGISTRY_DEF_STABLE);
    let forms = parse("(def x 1)").unwrap();
    assert!(matches!(lower(&rows, &forms[0]).unwrap(), IrNode::Define { .. }));
}

#[test]
fn defmacro_is_lowered_as_its_own_shape_not_an_ordinary_call() {
    assert!(matches!(lower_source("(defmacro my-macro (x) x)").unwrap(), IrNode::Defmacro { .. }));
}

#[test]
fn ordinary_admitted_semantic_identity_is_tagged_not_special_cased() {
    let IrNode::Apply { callee, .. } = lower_source("(+ 1 2)").unwrap() else {
        panic!("expected Apply");
    };
    let IrNode::VariableRef { provenance, .. } = *callee else {
        panic!("expected VariableRef");
    };
    assert!(matches!(provenance, Provenance::AdmittedSemanticIdentity(ref id) if id == "0104"));
}

#[test]
fn unbound_user_symbol_is_an_ordinary_binding_not_a_failure() {
    let IrNode::Apply { callee, .. } = lower_source("(my-own-function 1 2)").unwrap() else {
        panic!("expected Apply");
    };
    let IrNode::VariableRef { provenance, .. } = *callee else {
        panic!("expected VariableRef");
    };
    assert!(matches!(provenance, Provenance::OrdinaryBinding));
}

#[test]
fn a_necessary_form_spelling_alone_is_a_reference() {
    let IrNode::VariableRef { provenance, .. } = lower_source("lambda").unwrap() else {
        panic!("expected VariableRef");
    };
    assert!(matches!(provenance, Provenance::NecessaryForm(NecessaryFormIdentity::Lambda)));
}

#[test]
fn empty_list_lowers_as_the_canon_empty_list_literal() {
    let node = lower_source("()").unwrap();
    assert!(matches!(node, IrNode::Literal { provenance: Provenance::Canon(CanonicalIdentity::EmptyList), .. }));
    let IrNode::Cond { clauses, .. } = lower_source("(cond (() 1) (2 3 4))").unwrap() else {
        panic!("expected Cond");
    };
    assert_eq!(clauses.len(), 2);
    assert_eq!(clauses[1].body.len(), 2);
}

#[test]
fn malformed_forms_are_refused_with_their_reason() {
    let detail = |source: &str| match lower_source(source) {
        Err(LoweringError::MalformedForm { detail, .. }) => detail,
        other => panic!("expected a malformed form, got {other:?}"),
    };
    assert_eq!(detail("(quote a b)"), "quote takes exactly one argument, got 2");
    assert_eq!(detail("(define x)"), "define/def takes exactly two arguments, got 1");
    assert_eq!(detail("(define 1 2)"), "define/def's first argument must be a symbol");
    assert_eq!(detail("(lambda)"), "lambda requires a parameter list");
    assert_eq!(detail("(defmacro)"), "defmacro requires at least a name");
    assert_eq!(detail("(defmacro m)"), "defmacro requires a parameter list");
    assert_eq!(detail("(cond 1)"), "each cond clause must be a list (test body...)");
    assert_eq!(detail("(cond ())"), "cond clause must have at least a test");
    assert_eq!(detail("(f (a . b))"), "numeric buffers and dotted pairs are data-only forms, never executable heads");
    assert!(matches!(lower_source("(def x 1 2 3)").unwrap(), IrNode::Apply { .. }));
}

#[test]
fn explanations_name_the_provenance() {
    assert_eq!(explain(&lower_source("(car x)").unwrap()), "application with 1 argument(s)");
    let IrNode::Apply { callee, .. } = lower_source("(car x)").unwrap() else {
        panic!("expected Apply");
    };
    assert_eq!(explain(&callee), "reference to `car` (Canon(Car))");
    assert_eq!(explain(&lower_source("(lambda (x) x x)").unwrap()), "lambda: 2 body expression(s), semantic identity 0010");
    assert_eq!(explain(&lower_source("(define y 2)").unwrap()), "define/def: binds `y`, semantic identity 0011");
    assert_eq!(explain(&lower_source("5").unwrap()), "literal value (Literal)");
    let IrNode::Apply { callee, .. } = lower_source("(+ 1)").unwrap() else {
        panic!("expected Apply");
    };
    assert_eq!(explain(&callee), "reference to `+` (AdmittedSemanticIdentity(\"0104\"))");
}
