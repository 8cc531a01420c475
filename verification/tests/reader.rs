use lib::error::ErrorKind;
use lib::reader::parse;
use lib::syntax::{ExprKind, NumericBuffer};

fn read_one(source: &str) -> ExprKind {
    let mut forms = parse(source).unwrap();
    assert_eq!(forms.len(), 1);
    forms.remove(0).kind
}

#[test]
fn literals_beyond_sixty_four_bits_read_exactly() {
    match read_one("123456789012345678901234567890123456789") {
        ExprKind::Rational(q) => assert_eq!(q.to_text(), "123456789012345678901234567890123456789"),
        other => panic!("unexpected {:?}", other),
    }
    match read_one("123456789012345678901/2") {
        ExprKind::Rational(q) => assert_eq!(q.to_text(), "123456789012345678901/2"),
        other => panic!("unexpected {:?}", other),
    }
    match read_one("1e40") {
        ExprKind::Rational(q) => assert_eq!(q.to_text(), "10000000000000000000000000000000000000000"),
        other => panic!("unexpected {:?}", other),
    }
    match read_one("-0,5") {
        ExprKind::Rational(q) => assert_eq!(q.to_text(), "-1/2"),
        other => panic!("unexpected {:?}", other),
    }
    assert!(matches!(read_one("9007199254740992"), ExprKind::Number(9007199254740992)));
    assert!(matches!(read_one("2.5e1"), ExprKind::Number(25)));
}

#[test]
fn a_huge_exponent_is_a_named_resource_error() {
    let err = parse("1e100000").unwrap_err();
    assert_eq!(err.kind, ErrorKind::NumericOverflow);
}

#[test]
fn f32_elements_beyond_binary32_are_refused() {
    let err = parse("#f32(1 1e39)").unwrap_err();
    assert_eq!(err.kind, ErrorKind::NumericOverflow);
    assert_eq!(err.message, "#f32 element is outside the finite binary32 domain");
    assert_eq!(parse("#f32(-3.4028236e38)").unwrap_err().kind, ErrorKind::NumericOverflow);
    match read_one("#f32(1 1/2 3e38 3.4028235e38 -3.4028235e38)") {
        ExprKind::NumericBuffer(NumericBuffer::F32(v)) => {
            assert_eq!(v.len(), 5);
            assert_eq!(v[1].to_text(), "1/2");
        }
        other => panic!("unexpected {:?}", other),
    }
}
