use lib::necessary_forms::{identity_for_semantic_id, identity_for_symbol, NecessaryFormIdentity, DEFINE_SEMANTIC_ID, LAMBDA_SEMANTIC_ID};
use lib::status_registry::{parse_rows, semantic_id_for_surface};

/// The rows of the surface registry these checks speak of.
const REGISTRY_EXCERPT: &str = "(0001 (en quote stable) (uk як-є stable) (sa svarūpa stable))\n(0010 (en lambda stable) (uk функція stable) (sa rūpa candidate))\n(0011 (en define stable) (uk визначити stable))\n(0104 (sym + stable))\n(1000 (en def compatibility))";

#[test]
fn necessary_forms_are_selected_by_numeric_semantic_identity() {
    let rows = parse_rows(REGISTRY_EXCERPT);
    assert_eq!(identity_for_symbol(&rows, DEFINE_SEMANTIC_ID), Some(NecessaryFormIdentity::Define));
    assert_eq!(identity_for_symbol(&rows, LAMBDA_SEMANTIC_ID), Some(NecessaryFormIdentity::Lambda));
}

#[test]
fn non_stable_or_unrelated_spellings_do_not_gain_necessary_form_identity() {
    let rows = parse_rows(REGISTRY_EXCERPT);
    assert_eq!(identity_for_symbol(&rows, "def"), None);
    assert_eq!(identity_for_symbol(&rows, "#0010"), None);
    assert_eq!(identity_for_symbol(&rows, "id0010"), None);
    assert_eq!(identity_for_symbol(&rows, "quote"), None);
}

#[test]
fn unrelated_registry_rows_do_not_gain_necessary_form_meaning() {
    let rows = parse_rows(REGISTRY_EXCERPT);
    assert_eq!(semantic_id_for_surface(&rows, "+"), Some("0104".to_string()));
    assert_eq!(identity_for_symbol(&rows, "+"), None);
}

#[test]
fn synthetic_registry_constructively_controls_necessary_form_routing() {
    let rows = parse_rows("(0010 (xx comet stable))\n(0011 (xx asteroid stable))");
    let route = |surface: &str| semantic_id_for_surface(&rows, surface).and_then(|sid| identity_for_semantic_id(&sid));
    assert_eq!(route("comet"), Some(NecessaryFormIdentity::Lambda));
    assert_eq!(route("asteroid"), Some(NecessaryFormIdentity::Define));
    assert_eq!(route("lambda"), None);
    assert_eq!(route("define"), None);
}

#[test]
fn every_admitted_surface_for_define_and_lambda_is_a_registry_driven_peer_spelling() {
    let rows = parse_rows(REGISTRY_EXCERPT);
    for (semantic_id, identity) in [
        (DEFINE_SEMANTIC_ID, NecessaryFormIdentity::Define),
        (LAMBDA_SEMANTIC_ID, NecessaryFormIdentity::Lambda),
    ] {
        let surfaces: Vec<String> = rows
            .iter()
            .filter(|row| row.semantic_id == semantic_id)
            .flat_map(|row| row.stable_surfaces.iter().cloned())
            .collect();
        assert!(surfaces.len() >= 2, "{semantic_id} should admit at least two surfaces, got {surfaces:?}");
        for surface in &surfaces {
            assert_eq!(identity_for_symbol(&rows, surface), Some(identity));
        }
    }
}
