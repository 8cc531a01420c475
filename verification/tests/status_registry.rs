use lib::status_registry::{parse_rows, semantic_id_for_surface};

#[test]
fn parser_projects_stable_status_instead_of_hard_coding_surface_names() {
    let synthetic = "(4242 (xx comet stable) (yy asteroid candidate) (zz — missing))";
    let parsed = parse_rows(synthetic);
    assert_eq!(parsed.len(), 1);
    assert_eq!(parsed[0].semantic_id, "4242");
    assert_eq!(parsed[0].stable_surfaces, vec!["comet"]);
}

#[test]
fn only_stable_spellings_and_present_identities_resolve() {
    let rows = parse_rows("(0010 (en lambda stable) (uk функція stable) (en def compatibility))\n(0104 (sym + stable))");
    assert_eq!(semantic_id_for_surface(&rows, "lambda"), Some("0010".to_string()));
    assert_eq!(semantic_id_for_surface(&rows, "функція"), Some("0010".to_string()));
    assert_eq!(semantic_id_for_surface(&rows, "+"), Some("0104".to_string()));
    assert_eq!(semantic_id_for_surface(&rows, "def"), None);
    assert_eq!(semantic_id_for_surface(&rows, "0010"), Some("0010".to_string()));
    assert_eq!(semantic_id_for_surface(&rows, "999999"), None);
}

/// The rows of the surface registry these checks speak of.
const REGISTRY_EXCERPT: &str = "(0010 (en lambda stable) (uk функція stable) (sa rūpa candidate) (sym — missing))\n(0011 (en define stable) (uk визначити stable))\n(0104 (sym + stable))\n(1000 (en def compatibility))";

#[test]
fn numeric_machine_handles_resolve_only_when_the_registry_contains_them() {
    let rows = parse_rows(REGISTRY_EXCERPT);
    assert_eq!(semantic_id_for_surface(&rows, "0010"), Some("0010".to_string()));
    assert_eq!(semantic_id_for_surface(&rows, "0011"), Some("0011".to_string()));
    assert_eq!(semantic_id_for_surface(&rows, "999999"), None);
}

#[test]
fn stable_human_and_symbolic_surfaces_resolve_from_the_registry() {
    let rows = parse_rows(REGISTRY_EXCERPT);
    assert_eq!(semantic_id_for_surface(&rows, "lambda"), Some("0010".to_string()));
    assert_eq!(semantic_id_for_surface(&rows, "функція"), Some("0010".to_string()));
    assert_eq!(semantic_id_for_surface(&rows, "визначити"), Some("0011".to_string()));
    assert_eq!(semantic_id_for_surface(&rows, "+"), Some("0104".to_string()));
}

#[test]
fn non_stable_registry_spellings_do_not_become_runtime_authority() {
    let rows = parse_rows(REGISTRY_EXCERPT);
    assert_eq!(semantic_id_for_surface(&rows, "def"), None);
    assert_eq!(semantic_id_for_surface(&rows, "rūpa"), None);
    assert_eq!(semantic_id_for_surface(&rows, "—"), None);
}
