use lib::canon::{
    canon, identity_for_semantic_id, is_canonical_surface_name, semantic_id_for_identity,
    CanonicalIdentity, CanonicalKind, CAR_SEMANTIC_ID, QUOTE_SEMANTIC_ID,
};
use lib::status_registry::parse_rows;

#[test]
fn canon_has_exactly_ground_plus_seven() {
    let table = canon();
    assert_eq!(table.len(), 8);
    assert_eq!(table[0].identity, CanonicalIdentity::EmptyList);
    assert_eq!(table[0].kind, CanonicalKind::GroundValue);
    assert_eq!(table[0].semantic_id, None);
}

#[test]
fn canon_meanings_are_selected_only_by_numeric_semantic_identity() {
    assert_eq!(identity_for_semantic_id(QUOTE_SEMANTIC_ID), Some(CanonicalIdentity::Quote));
    assert_eq!(identity_for_semantic_id(CAR_SEMANTIC_ID), Some(CanonicalIdentity::Car));
    assert_eq!(identity_for_semantic_id("0104"), None);
}

#[test]
fn every_canon_identity_round_trips_through_its_semantic_identity() {
    for entry in canon() {
        match entry.semantic_id {
            Some(sid) => {
                assert_eq!(identity_for_semantic_id(sid), Some(entry.identity));
                assert_eq!(semantic_id_for_identity(entry.identity), Some(sid));
            }
            None => assert_eq!(semantic_id_for_identity(entry.identity), None),
        }
    }
}

#[test]
fn canonical_surface_names_follow_the_status_registry() {
    let rows = parse_rows(
        "(0005 (en car stable) (uk перше stable) (sa ādi candidate))\n(0104 (en + stable))",
    );
    assert!(is_canonical_surface_name(&rows, "car"));
    assert!(is_canonical_surface_name(&rows, "перше"));
    assert!(!is_canonical_surface_name(&rows, "ādi"));
    assert!(!is_canonical_surface_name(&rows, "+"));
    assert!(!is_canonical_surface_name(&rows, "map"));
}

/// The rows of the surface registry these checks speak of.
const REGISTRY_EXCERPT: &str = "(0001 (en quote stable) (uk як-є stable) (sa svarūpa stable))\n(0002 (en atom stable) (uk атом? stable) (sa aṇu stable))\n(0003 (en eq stable) (uk тотожне? stable) (sa abheda stable))\n(0004 (en cons stable) (uk сполучити stable) (sa saṃyuj stable))\n(0005 (en car stable) (uk перше stable) (sa ādi stable))\n(0006 (en cdr stable) (uk решта stable) (sa śeṣa stable))\n(0007 (en cond stable) (uk за-умовою stable) (sa anukrama stable))\n(0104 (sym + stable))\n(0200 (en map candidate) (uk відобразити candidate))";

#[test]
fn canonical_surface_names_are_reserved() {
    let rows = parse_rows(REGISTRY_EXCERPT);
    for name in [
        "quote", "як-є", "svarūpa", "atom", "атом?", "aṇu", "eq", "тотожне?", "abheda", "cons",
        "сполучити", "saṃyuj", "car", "перше", "ādi", "cdr", "решта", "śeṣa", "cond", "за-умовою",
        "anukrama",
    ] {
        assert!(is_canonical_surface_name(&rows, name), "Canon spelling must be reserved: {name}");
    }
    assert!(!is_canonical_surface_name(&rows, "map"));
    assert!(!is_canonical_surface_name(&rows, "відобразити"));
}

#[test]
fn registry_rows_without_canon_meaning_do_not_become_canon() {
    let rows = parse_rows(REGISTRY_EXCERPT);
    assert_eq!(lib::status_registry::semantic_id_for_surface(&rows, "+"), Some("0104".to_string()));
    assert_eq!(lib::canon::identity_for_surface(&rows, "+"), None);
}

#[test]
fn synthetic_registry_constructively_controls_canon_routing() {
    let rows = parse_rows("(0001 (xx comet stable))\n(0005 (xx asteroid stable))");
    let route = |surface: &str| {
        lib::status_registry::semantic_id_for_surface(&rows, surface).and_then(|sid| identity_for_semantic_id(&sid))
    };
    assert_eq!(route("comet"), Some(CanonicalIdentity::Quote));
    assert_eq!(route("asteroid"), Some(CanonicalIdentity::Car));
    assert_eq!(route("quote"), None);
    assert_eq!(route("car"), None);
}

#[test]
fn every_admitted_surface_for_one_semantic_id_resolves_to_one_identity() {
    let rows = parse_rows(REGISTRY_EXCERPT);
    let surfaces: Vec<String> = rows
        .iter()
        .filter(|row| row.semantic_id == CAR_SEMANTIC_ID)
        .flat_map(|row| row.stable_surfaces.iter().cloned())
        .collect();
    assert!(surfaces.len() >= 2, "0005 (car) should admit at least two surfaces, got {surfaces:?}");
    for surface in &surfaces {
        assert_eq!(
            lib::canon::identity_for_surface(&rows, surface),
            Some(CanonicalIdentity::Car),
            "registry-admitted surface {surface:?} did not route to CanonicalIdentity::Car"
        );
    }
}

#[test]
fn canon_spellings_cannot_be_rebound() {
    let rows = parse_rows(REGISTRY_EXCERPT);
    let span = lib::syntax::Span { start: 3, end: 8 };
    let error = lib::canon::ensure_bindable(&rows, "перше", span).unwrap_err();
    assert_eq!(error.kind, lib::error::ErrorKind::InvalidForm);
    assert_eq!(error.span, span);
    assert_eq!(
        error.message,
        "canonical name is immutable · канонічне ім'я незмінне · kanonischer Name ist unveränderlich: перше -> Car"
    );
    assert!(lib::canon::ensure_bindable(&rows, "map", span).is_ok());
    assert!(lib::canon::ensure_bindable(&rows, "+", span).is_ok());
}
