use lib::atoms::{by_alias, by_id, by_slp1, registry, AtomCategory};

#[test]
fn no_atom_id_equals_its_own_slp1_spelling() {
    for atom in registry() {
        assert_ne!(atom.id, atom.slp1, "atom {} must not use its SLP1 spelling as its identity", atom.id);
    }
}

#[test]
fn registry_ids_are_unique() {
    let mut ids: Vec<&str> = registry().iter().map(|a| a.id).collect();
    ids.sort();
    let mut deduped = ids.clone();
    deduped.dedup();
    assert_eq!(ids, deduped, "duplicate atom id in registry");
}

#[test]
fn spec_worked_example_dhatu_da_is_registered_correctly() {
    let atom = by_id("DHATU_DA").expect("DHATU_DA must be in the registry");
    assert_eq!(atom.slp1, "dA");
    assert_eq!(atom.iast, "dā");
    assert_eq!(atom.devanagari, "दा");
    assert_eq!(atom.category, AtomCategory::Dhatu);
}

#[test]
fn lookup_by_slp1_and_by_alias_agree_with_lookup_by_id() {
    let by_id_result = by_id("DHATU_DA").unwrap();
    let by_slp1_result = by_slp1("dA").unwrap();
    let by_alias_result = by_alias("give").unwrap();
    assert_eq!(by_id_result.id, by_slp1_result.id);
    assert_eq!(by_id_result.id, by_alias_result.id);
}

#[test]
fn unknown_lookups_return_none() {
    assert!(by_id("DHATU_NONEXISTENT").is_none());
    assert!(by_slp1("zzz").is_none());
    assert!(by_alias("nonexistent-alias").is_none());
}

#[test]
fn every_registry_atom_is_found_by_each_of_its_keys() {
    for atom in registry() {
        assert_eq!(by_id(atom.id).unwrap().id, atom.id);
        assert_eq!(by_slp1(atom.slp1).unwrap().id, atom.id);
        for alias in atom.aliases {
            assert_eq!(by_alias(alias).unwrap().id, atom.id);
        }
    }
}
