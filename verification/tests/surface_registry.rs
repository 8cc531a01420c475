use lib::surface_registry::{
    admitted_surfaces_for_semantic_id, admitted_surfaces_from_rows,
    admitted_surfaces_with_namespace, build_surface_index, check_contiguous, parse_rows,
    semantic_id_bits, stable_surfaces_from_index, SemanticSurface,
};

fn surface(namespace: &str, name: &str) -> SemanticSurface {
    SemanticSurface { namespace: namespace.to_string(), name: name.to_string() }
}

#[test]
fn registry_projection_is_status_free_and_empty_list_means_absence() {
    let synthetic = "(\"00101010\" (en comet) (uk ()) (ukr meteor) (sa ()) (sym +))";
    let parsed = parse_rows(synthetic).unwrap();
    assert_eq!(parsed.len(), 1);
    assert_eq!(parsed[0].semantic_id, 42);
    assert_eq!(
        parsed[0].surfaces,
        vec![surface("en", "comet"), surface("ukr", "meteor"), surface("sym", "+")]
    );
}

#[test]
#[should_panic(expected = "expected (namespace spelling) or (namespace ())")]
fn status_tokens_are_rejected_by_sr2() {
    let _ = parse_rows("(\"00101010\" (en comet stable) (uk ()) (ukr ()) (sa ()) (sym ()))").unwrap();
}

#[test]
fn machine_sid_bit_spelling_is_not_a_lisp_surface() {
    let synthetic = "(\"00101010\" (en comet) (uk ()) (ukr meteor) (sa ()) (sym ()))";
    let direct = build_surface_index(synthetic).unwrap();
    assert_eq!(direct.get("comet"), Some(42));
    assert_eq!(direct.get("meteor"), Some(42));
    assert_eq!(direct.get("00101010"), None);
}

#[test]
fn peer_namespaces_may_repeat_one_spelling_for_the_same_identity() {
    let synthetic = "(\"00101010\" (en comet) (uk comet) (ukr comet) (sa ()) (sym ()))";
    let direct = build_surface_index(synthetic).unwrap();
    assert_eq!(direct.get("comet"), Some(42));
    assert_eq!(direct.len(), 1);
}

#[test]
fn every_present_surface_is_constructively_selected_by_semantic_id() {
    let synthetic = "(\"00101010\" (en ()) (uk comet) (ukr ()) (sa asteroid) (sym +))";
    let index = build_surface_index(synthetic).unwrap();
    assert_eq!(stable_surfaces_from_index(&index, 42), vec!["+", "asteroid", "comet"]);
    assert!(stable_surfaces_from_index(&index, 99).is_empty());
}

#[test]
#[should_panic(expected = "semantic registry surface must be unique")]
fn duplicate_surface_is_rejected_deterministically() {
    let conflicting = "(\"00000001\" (en collision) (uk ()) (ukr ()) (sa ()) (sym ()))\n(\"00000010\" (en ()) (uk collision) (ukr ()) (sa ()) (sym ()))";
    let _ = build_surface_index(conflicting).unwrap();
}

#[test]
fn duplicate_surface_names_both_identities_in_bits() {
    let conflicting = "(\"00000001\" (en collision) (uk ()) (ukr ()) (sa ()) (sym ()))\n(\"00000010\" (en ()) (uk collision) (ukr ()) (sa ()) (sym ()))";
    let error = build_surface_index(conflicting).unwrap_err();
    assert_eq!(
        error,
        "semantic registry surface must be unique: collision maps to both 00000001 and 00000010"
    );
}

#[test]
fn sid_bits_are_eight_binary_digits() {
    assert_eq!(semantic_id_bits(0), "00000000");
    assert_eq!(semantic_id_bits(42), "00101010");
    assert_eq!(semantic_id_bits(255), "11111111");
}

#[test]
fn rows_outside_the_fixed_namespace_order_are_refused() {
    let error = parse_rows("(\"00000011\" (uk a) (en b) (ukr ()) (sa ()) (sym ()))").unwrap_err();
    assert_eq!(error, "sr/2 rows must contain exactly en/uk/ukr/sa/sym in fixed order");
}

#[test]
fn lines_without_a_bit_identity_are_not_rows() {
    let rows = parse_rows(";; comment\n(\"0101\" (en x))\n(\"00000001\" (en one) (uk ()) (ukr ()) (sa ()) (sym ()))").unwrap();
    assert_eq!(rows.len(), 1);
    assert_eq!(rows[0].semantic_id, 1);
}

#[test]
fn contiguous_axis_is_checked_from_canon_zero() {
    let good = parse_rows("(\"00000000\" (en ()) (uk ()) (ukr ()) (sa ()) (sym ()))\n(\"00000001\" (en quote) (uk ()) (ukr ()) (sa ()) (sym '))").unwrap();
    assert_eq!(check_contiguous(&good), Ok(()));
    let gap = parse_rows("(\"00000000\" (en ()) (uk ()) (ukr ()) (sa ()) (sym ()))\n(\"00000010\" (en two) (uk ()) (ukr ()) (sa ()) (sym ()))").unwrap();
    assert_eq!(
        check_contiguous(&gap),
        Err("semantic registry byte SIDs must be contiguous and ordered".to_string())
    );
    let late = parse_rows("(\"00000001\" (en one) (uk ()) (ukr ()) (sa ()) (sym ()))").unwrap();
    assert_eq!(
        check_contiguous(&late),
        Err("semantic registry must start at Canon 0 / SID 0".to_string())
    );
    assert_eq!(
        check_contiguous(&Vec::new()),
        Err("semantic registry must contain Canon 0".to_string())
    );
}

#[test]
fn surfaces_with_namespace_match_present_names_and_keep_namespace() {
    let registry = "(\"00000000\" (en ()) (uk ()) (ukr ()) (sa ()) (sym ()))\n(\"00000001\" (en quote) (uk як-є) (ukr ()) (sa svarūpa) (sym '))";
    let rows = parse_rows(registry).unwrap();
    let with_namespace = admitted_surfaces_with_namespace(&rows, 1);
    let names_only = admitted_surfaces_from_rows(&rows, 1);
    assert_eq!(with_namespace.len(), names_only.len());
    assert!(with_namespace.contains(&("en".to_string(), "quote".to_string())));
    assert!(with_namespace.contains(&("uk".to_string(), "як-є".to_string())));
    assert!(with_namespace.contains(&("sym".to_string(), "'".to_string())));
    assert_eq!(names_only, vec!["'", "quote", "svarūpa", "як-є"]);
    let exported = admitted_surfaces_for_semantic_id(registry, 1).unwrap();
    let pairs: Vec<(String, String)> =
        exported.into_iter().map(|row| (row.namespace, row.name)).collect();
    assert_eq!(pairs, with_namespace);
    assert_eq!(
        pairs,
        vec![
            ("en".to_string(), "quote".to_string()),
            ("sa".to_string(), "svarūpa".to_string()),
            ("sym".to_string(), "'".to_string()),
            ("uk".to_string(), "як-є".to_string()),
        ]
    );
    assert!(admitted_surfaces_for_semantic_id(registry, 7).unwrap().is_empty());
}

#[test]
fn export_refuses_a_registry_without_canon_zero() {
    let registry = "(\"00000001\" (en quote) (uk ()) (ukr ()) (sa ()) (sym ()))";
    assert_eq!(
        admitted_surfaces_for_semantic_id(registry, 1).err(),
        Some("semantic registry must start at Canon 0 / SID 0".to_string())
    );
}
