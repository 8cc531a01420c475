use lib::capabilities::CapabilityRegistry;

#[test]
fn core_registry_starts_empty() {
    let registry: CapabilityRegistry<u32> = CapabilityRegistry::new();
    assert!(registry.installed_capabilities().is_empty());
    assert!(!registry.capability_installed("read-file"));
}

#[test]
fn registered_names_are_listed_in_ascending_order() {
    let mut registry = CapabilityRegistry::new();
    registry.register_capability("tcp-read-raw", 1u32);
    registry.register_capability("process-run-raw", 2);
    registry.register_capability("read-file", 3);
    assert_eq!(
        registry.installed_capabilities(),
        vec!["process-run-raw", "read-file", "tcp-read-raw"]
    );
    assert!(registry.capability_installed("read-file"));
}

#[test]
fn re_registering_replaces_without_duplicating() {
    let mut registry = CapabilityRegistry::new();
    registry.register_capability("read-file", 1u32);
    registry.register_capability("read-file", 2);
    assert_eq!(registry.installed_capabilities(), vec!["read-file"]);
}

#[test]
fn unregistering_withdraws_only_that_name() {
    let mut registry = CapabilityRegistry::new();
    registry.register_capability("a", 1u32);
    registry.register_capability("b", 2);
    registry.unregister_capability("a");
    registry.unregister_capability("missing");
    assert!(!registry.capability_installed("a"));
    assert!(registry.capability_installed("b"));
    assert_eq!(registry.installed_capabilities(), vec!["b"]);
}
