use lava_dependency::{
    validate_acyclic, DependencyError, DependencyKind, LavaArchitectureDependency, ResourceAddress,
};

fn addr(name: &str) -> ResourceAddress {
    ResourceAddress::new("rio", "infra", name)
}

fn blocks_on(from: &ResourceAddress, to: &ResourceAddress) -> LavaArchitectureDependency {
    LavaArchitectureDependency {
        from: from.clone(),
        to: to.clone(),
        kind: DependencyKind::BlocksOn,
        require_phase: "Applied".to_string(),
    }
}

#[test]
fn validate_acyclic_accepts_a_chain() {
    let a = addr("a");
    let b = addr("b");
    let c = addr("c");
    validate_acyclic(&[blocks_on(&a, &b), blocks_on(&b, &c)]).unwrap();
}

#[test]
fn validate_acyclic_rejects_a_cycle() {
    let a = addr("a");
    let b = addr("b");
    let err = validate_acyclic(&[blocks_on(&a, &b), blocks_on(&b, &a)]).unwrap_err();
    assert!(matches!(err, DependencyError::Cycle(_)));
}

#[test]
fn a_cycle_is_told_as_a_path() {
    let (a, b, c, d) = (addr("a"), addr("b"), addr("c"), addr("d"));
    let deps = [blocks_on(&a, &b), blocks_on(&b, &c), blocks_on(&c, &d), blocks_on(&d, &b)];
    let DependencyError::Cycle(path) = validate_acyclic(&deps).unwrap_err();
    assert_eq!(path, "rio/infra/b -> rio/infra/c -> rio/infra/d");
}

#[test]
fn a_dependency_on_itself_is_a_cycle() {
    let a = addr("a");
    let DependencyError::Cycle(path) = validate_acyclic(&[blocks_on(&a, &a)]).unwrap_err();
    assert_eq!(path, "rio/infra/a");
}

#[test]
fn no_dependencies_and_shared_upstreams_are_fine() {
    validate_acyclic(&[]).unwrap();
    let (a, b, c, d) = (addr("a"), addr("b"), addr("c"), addr("d"));
    let deps = [
        blocks_on(&a, &b),
        blocks_on(&a, &c),
        blocks_on(&b, &d),
        blocks_on(&c, &d),
        blocks_on(&a, &b),
    ];
    validate_acyclic(&deps).unwrap();
}

#[test]
fn soft_dependencies_close_a_cycle_too() {
    let (a, b) = (addr("a"), addr("b"));
    let mut back = blocks_on(&b, &a);
    back.kind = DependencyKind::Influences;
    back.require_phase = "Planned".to_string();
    assert!(validate_acyclic(&[blocks_on(&a, &b), back]).is_err());
}

#[test]
fn a_cycle_is_found_behind_a_sound_part() {
    let deps = [
        blocks_on(&addr("x"), &addr("y")),
        blocks_on(&addr("y"), &addr("z")),
        blocks_on(&addr("p"), &addr("q")),
        blocks_on(&addr("q"), &addr("x")),
        blocks_on(&addr("q"), &addr("p")),
    ];
    assert!(validate_acyclic(&deps).is_err());
    validate_acyclic(&deps[..4]).unwrap();
}

#[test]
fn addresses_with_one_dotted_form_are_one_node() {
    let a = ResourceAddress::new("rio/infra", "vpc", "main");
    let b = ResourceAddress::new("rio", "infra/vpc", "main");
    assert!(validate_acyclic(&[blocks_on(&a, &b)]).is_err());
}

#[test]
fn order_and_repetition_do_not_matter() {
    let (a, b, c) = (addr("a"), addr("b"), addr("c"));
    let sound = [blocks_on(&b, &c), blocks_on(&a, &c), blocks_on(&a, &b), blocks_on(&b, &c)];
    validate_acyclic(&sound).unwrap();
    let circular = [blocks_on(&c, &a), blocks_on(&b, &c), blocks_on(&a, &b), blocks_on(&c, &a)];
    let DependencyError::Cycle(path) = validate_acyclic(&circular).unwrap_err();
    assert_eq!(path, "rio/infra/c -> rio/infra/a -> rio/infra/b");
}
