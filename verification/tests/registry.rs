use lava_dependency::{default_require_phase, InMemoryPhaseRegistry, PhaseRegistry, ResourceAddress};

#[test]
fn an_address_is_written_with_slashes() {
    assert_eq!(ResourceAddress::new("rio", "infra", "prod-vpc").dotted(), "rio/infra/prod-vpc");
    assert_eq!(ResourceAddress::new("", "".to_string(), "").dotted(), "//");
}

#[test]
fn addresses_are_equal_part_by_part() {
    let a = ResourceAddress::new("rio", "infra", "vpc");
    assert_eq!(a, a.clone());
    assert_ne!(a, ResourceAddress::new("rio", "infra", "dns"));
    assert_ne!(a, ResourceAddress::new("rio", "edge", "vpc"));
    assert_ne!(a, ResourceAddress::new("sol", "infra", "vpc"));
}

#[test]
fn a_registry_answers_what_was_inserted() {
    let vpc = ResourceAddress::new("rio", "infra", "vpc");
    let dns = ResourceAddress::new("rio", "infra", "dns");
    let mut registry = InMemoryPhaseRegistry::new();
    assert_eq!(registry.phase_of(&vpc), None);
    registry.insert(&vpc, "Pending");
    registry.insert(&dns, "Planned".to_string());
    registry.insert(&vpc, "Applied");
    assert_eq!(registry.phase_of(&vpc), Some("Applied".to_string()));
    assert_eq!(registry.phase_of(&dns), Some("Planned".to_string()));
    assert_eq!(registry.phases.len(), 2);
    assert_eq!(registry.phases["rio/infra/vpc"], "Applied");
}

#[test]
fn entries_keep_the_place_of_their_key() {
    let vpc = ResourceAddress::new("rio", "infra", "vpc");
    let dns = ResourceAddress::new("rio", "infra", "dns");
    let registry = InMemoryPhaseRegistry::default()
        .with(&vpc, "Pending")
        .with(&dns, "Planned")
        .with(&vpc, "Applied");
    let copy = registry.clone();
    let keys: Vec<&String> = copy.phases.keys().collect();
    assert_eq!(keys, vec!["rio/infra/vpc", "rio/infra/dns"]);
    let values: Vec<&String> = copy.phases.values().collect();
    assert_eq!(values, vec!["Applied", "Planned"]);
}

#[test]
fn addresses_with_one_dotted_form_share_a_phase() {
    let a = ResourceAddress::new("rio/infra", "vpc", "main");
    let b = ResourceAddress::new("rio", "infra/vpc", "main");
    assert_ne!(a, b);
    let registry = InMemoryPhaseRegistry::new().with(&a, "Applied");
    assert_eq!(registry.phase_of(&b), Some("Applied".to_string()));
}

#[test]
fn the_phase_asked_for_is_applied_by_default() {
    assert_eq!(default_require_phase(), "Applied");
}
