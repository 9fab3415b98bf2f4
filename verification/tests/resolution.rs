use lava_dependency::{
    BlockReason, DependencyKind, DependencyResolver, InMemoryPhaseRegistry,
    LavaArchitectureDependency, PhaseRegistry, ResolutionVerdict, ResourceAddress,
};

fn addr(name: &str) -> ResourceAddress {
    ResourceAddress::new("rio", "infra", name)
}

fn blocks_on(from: &ResourceAddress, to: &ResourceAddress) -> LavaArchitectureDependency {
    LavaArchitectureDependency {
        from: from.clone(),
        to: to.clone(),
        kind: DependencyKind::BlocksOn,
        require_phase: "Applied".to_string(),
    }
}

fn influences(from: &ResourceAddress, to: &ResourceAddress) -> LavaArchitectureDependency {
    LavaArchitectureDependency {
        from: from.clone(),
        to: to.clone(),
        kind: DependencyKind::Influences,
        require_phase: "Applied".to_string(),
    }
}

#[test]
fn ready_when_no_dependencies() {
    let verdict = DependencyResolver.resolve(&addr("app"), &[], &InMemoryPhaseRegistry::new());
    assert!(verdict.ready_for_reconcile());
    assert!(verdict.blocks.is_empty());
}

#[test]
fn ready_when_blocks_on_upstream_is_applied() {
    let app = addr("app");
    let vpc = addr("vpc");
    let registry = InMemoryPhaseRegistry::new().with(&vpc, "Applied");
    let verdict = DependencyResolver.resolve(&app, &[blocks_on(&app, &vpc)], &registry);
    assert!(verdict.ready_for_reconcile());
}

#[test]
fn blocked_when_blocks_on_upstream_is_pending() {
    let app = addr("app");
    let vpc = addr("vpc");
    let registry = InMemoryPhaseRegistry::new().with(&vpc, "Pending");
    let verdict = DependencyResolver.resolve(&app, &[blocks_on(&app, &vpc)], &registry);
    assert!(!verdict.ready_for_reconcile());
    assert_eq!(verdict.blocks.len(), 1);
    assert_eq!(verdict.blocks[0].observed_phase.as_deref(), Some("Pending"));
}

#[test]
fn blocked_when_blocks_on_upstream_is_missing() {
    let app = addr("app");
    let vpc = addr("vpc");
    let registry = InMemoryPhaseRegistry::new();
    let verdict = DependencyResolver.resolve(&app, &[blocks_on(&app, &vpc)], &registry);
    assert!(!verdict.ready_for_reconcile());
    assert_eq!(verdict.blocks[0].observed_phase, None);
}

#[test]
fn influences_does_not_gate_readiness_but_surfaces_block() {
    let app = addr("app");
    let dns = addr("dns");
    let registry = InMemoryPhaseRegistry::new().with(&dns, "Pending");
    let verdict = DependencyResolver.resolve(&app, &[influences(&app, &dns)], &registry);
    assert!(verdict.ready_for_reconcile());
    assert_eq!(verdict.blocks.len(), 1);
    assert_eq!(verdict.blocks[0].kind, DependencyKind::Influences);
}

#[test]
fn failed_upstream_is_tagged_as_downstream_of_failed() {
    let app = addr("app");
    let vpc = addr("vpc");
    let registry = InMemoryPhaseRegistry::new().with(&vpc, "Failed");
    let verdict = DependencyResolver.resolve(&app, &[blocks_on(&app, &vpc)], &registry);
    assert!(!verdict.ready_for_reconcile());
    assert_eq!(verdict.downstream_of_failed, vec![vpc]);
}

#[test]
fn resolver_ignores_dependencies_not_originating_at_self() {
    let app = addr("app");
    let other = addr("other");
    let vpc = addr("vpc");
    let registry = InMemoryPhaseRegistry::new().with(&vpc, "Pending");
    let verdict = DependencyResolver.resolve(&app, &[blocks_on(&other, &vpc)], &registry);
    assert!(verdict.ready_for_reconcile());
    assert!(verdict.blocks.is_empty());
}

#[test]
fn blocks_are_listed_in_declared_order_with_all_their_fields() {
    let app = addr("app");
    let registry = InMemoryPhaseRegistry::new()
        .with(&addr("vpc"), "Pending")
        .with(&addr("db"), "Applied")
        .with(&addr("dns"), "Drifted".to_string());
    let deps = [
        influences(&app, &addr("dns")),
        blocks_on(&app, &addr("db")),
        blocks_on(&app, &addr("vpc")),
        blocks_on(&app, &addr("queue")),
    ];
    let verdict = DependencyResolver.resolve(&app, &deps, &registry);
    let expected = ResolutionVerdict {
        ready: false,
        blocks: vec![
            BlockReason {
                upstream: addr("dns"),
                required_phase: "Applied".to_string(),
                observed_phase: Some("Drifted".to_string()),
                kind: DependencyKind::Influences,
            },
            BlockReason {
                upstream: addr("vpc"),
                required_phase: "Applied".to_string(),
                observed_phase: Some("Pending".to_string()),
                kind: DependencyKind::BlocksOn,
            },
            BlockReason {
                upstream: addr("queue"),
                required_phase: "Applied".to_string(),
                observed_phase: None,
                kind: DependencyKind::BlocksOn,
            },
        ],
        downstream_of_failed: vec![],
    };
    assert_eq!(verdict, expected);
    assert_eq!(verdict, DependencyResolver.resolve(&app, &deps, &registry));
}

#[test]
fn failed_upstreams_are_found_through_other_upstreams() {
    let (app, vpc, net, dc) = (addr("app"), addr("vpc"), addr("net"), addr("dc"));
    let registry = InMemoryPhaseRegistry::new()
        .with(&vpc, "Applied")
        .with(&net, "Failed")
        .with(&dc, "Failed");
    let deps = [
        blocks_on(&net, &dc),
        blocks_on(&vpc, &net),
        blocks_on(&app, &vpc),
        blocks_on(&addr("other"), &dc),
    ];
    let verdict = DependencyResolver.resolve(&app, &deps, &registry);
    assert!(verdict.ready_for_reconcile());
    assert!(verdict.blocks.is_empty());
    assert_eq!(verdict.downstream_of_failed, vec![dc.clone(), net]);

    let verdict = DependencyResolver.resolve(&vpc, &deps[..1], &registry);
    assert!(verdict.downstream_of_failed.is_empty());
}

#[test]
fn failed_upstreams_are_found_in_a_circle() {
    let (a, b) = (addr("a"), addr("b"));
    let registry = InMemoryPhaseRegistry::new().with(&a, "Failed").with(&b, "Applied");
    let deps = [blocks_on(&a, &b), blocks_on(&b, &a)];
    let verdict = DependencyResolver.resolve(&a, &deps, &registry);
    assert!(verdict.ready_for_reconcile());
    assert_eq!(verdict.downstream_of_failed, vec![a]);
}

#[test]
fn a_dependency_may_ask_for_a_failed_upstream() {
    let app = addr("app");
    let vpc = addr("vpc");
    let registry = InMemoryPhaseRegistry::new().with(&vpc, "Failed");
    let mut dep = blocks_on(&app, &vpc);
    dep.require_phase = "Failed".to_string();
    let verdict = DependencyResolver.resolve(&app, &[dep], &registry);
    assert!(verdict.ready_for_reconcile());
    assert!(verdict.blocks.is_empty());
    assert_eq!(verdict.downstream_of_failed, vec![vpc]);
}

#[test]
fn each_dependency_on_a_failed_upstream_counts() {
    let app = addr("app");
    let vpc = addr("vpc");
    let registry = InMemoryPhaseRegistry::new().with(&vpc, "Failed");
    let deps = [blocks_on(&app, &vpc), influences(&app, &vpc)];
    let verdict = DependencyResolver.resolve(&app, &deps, &registry);
    assert_eq!(verdict.blocks.len(), 2);
    assert_eq!(verdict.downstream_of_failed, vec![vpc.clone(), vpc]);
}

struct AlwaysPending;

impl PhaseRegistry for AlwaysPending {
    fn phase_of(&self, address: &ResourceAddress) -> Option<String> {
        if address.name == "unknown" {
            None
        } else {
            Some("Pending".to_string())
        }
    }
}

#[test]
fn any_registry_can_be_asked() {
    let app = addr("app");
    let deps = [blocks_on(&app, &addr("vpc")), influences(&app, &addr("unknown"))];
    let verdict = DependencyResolver.resolve(&app, &deps, &AlwaysPending);
    assert!(!verdict.ready_for_reconcile());
    assert_eq!(verdict.blocks[0].observed_phase.as_deref(), Some("Pending"));
    assert_eq!(verdict.blocks[1].observed_phase, None);
}

#[test]
fn one_observation_is_recorded_at_a_time() {
    let app = addr("app");
    let mut verdict = ResolutionVerdict {
        ready: true,
        blocks: vec![],
        downstream_of_failed: vec![],
    };
    verdict.record(&app, &blocks_on(&app, &addr("db")), Some("Applied".to_string()));
    assert!(verdict.ready && verdict.blocks.is_empty());
    verdict.record(&app, &blocks_on(&addr("db"), &addr("disk")), Some("Failed".to_string()));
    assert!(verdict.ready && verdict.blocks.is_empty());
    assert_eq!(verdict.downstream_of_failed, vec![addr("disk")]);
    verdict.record(&app, &influences(&app, &addr("dns")), None);
    assert!(verdict.ready);
    assert_eq!(verdict.blocks.len(), 1);
    verdict.record(&app, &blocks_on(&app, &addr("vpc")), Some("Failed".to_string()));
    assert!(!verdict.ready);
    assert_eq!(verdict.blocks[1].upstream, addr("vpc"));
    assert_eq!(verdict.downstream_of_failed, vec![addr("disk"), addr("vpc")]);
}
