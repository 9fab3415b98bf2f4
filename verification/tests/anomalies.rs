use lava_dependency::{
    emit_blocked_anomaly, AnomalyKind, BlockReason, DependencyKind, DependencyResolver,
    InMemoryPhaseRegistry, LavaArchitectureDependency, ResourceAddress, Severity,
};
use std::time::SystemTime;

fn addr(name: &str) -> ResourceAddress {
    ResourceAddress::new("rio", "infra", name)
}

#[test]
fn emit_blocked_anomaly_carries_typed_metadata() {
    let app = addr("app");
    let vpc = addr("vpc");
    let reason = BlockReason {
        upstream: vpc.clone(),
        required_phase: "Applied".to_string(),
        observed_phase: Some("Pending".to_string()),
        kind: DependencyKind::BlocksOn,
    };
    let anomaly = emit_blocked_anomaly(app, &reason);
    assert_eq!(anomaly.kind, AnomalyKind::DependencyBlocked);
    assert_eq!(anomaly.severity, Severity::Functional);
    assert_eq!(anomaly.metadata["upstream"], "rio/infra/vpc");
    assert_eq!(anomaly.metadata["required_phase"], "Applied");
    assert_eq!(anomaly.metadata["observed_phase"], "Pending");
}

#[test]
fn influences_emit_is_cosmetic_severity() {
    let app = addr("app");
    let dns = addr("dns");
    let reason = BlockReason {
        upstream: dns,
        required_phase: "Applied".to_string(),
        observed_phase: None,
        kind: DependencyKind::Influences,
    };
    let anomaly = emit_blocked_anomaly(app, &reason);
    assert_eq!(anomaly.severity, Severity::Cosmetic);
}

#[test]
fn an_anomaly_tells_what_was_seen() {
    let reason = BlockReason {
        upstream: addr("vpc"),
        required_phase: "Applied".to_string(),
        observed_phase: Some("Pending".to_string()),
        kind: DependencyKind::BlocksOn,
    };
    let before = SystemTime::now();
    let anomaly = emit_blocked_anomaly(addr("app"), &reason);
    let after = SystemTime::now();
    assert_eq!(
        anomaly.message,
        "dependency BlocksOn: upstream rio/infra/vpc expected Applied, observed Pending"
    );
    assert_eq!(anomaly.source, addr("app"));
    assert_eq!(anomaly.extension_kind, None);
    assert!(before <= anomaly.emitted_at && anomaly.emitted_at <= after);
    let names: Vec<&String> = anomaly.metadata.keys().collect();
    assert_eq!(names, vec!["upstream", "required_phase", "observed_phase"]);
}

#[test]
fn an_anomaly_tells_that_nothing_was_seen() {
    let reason = BlockReason {
        upstream: addr("dns"),
        required_phase: "Synthesized".to_string(),
        observed_phase: None,
        kind: DependencyKind::Influences,
    };
    let anomaly = emit_blocked_anomaly(addr("app"), &reason);
    assert_eq!(
        anomaly.message,
        "dependency Influences: upstream rio/infra/dns expected Synthesized, observed (absent)"
    );
    assert_eq!(anomaly.metadata["observed_phase"], "absent");
    assert_eq!(anomaly.metadata["required_phase"], "Synthesized");
}

#[test]
fn metadata_is_replaced_by_name() {
    let reason = BlockReason {
        upstream: addr("dns"),
        required_phase: "Applied".to_string(),
        observed_phase: None,
        kind: DependencyKind::Influences,
    };
    let anomaly = emit_blocked_anomaly(addr("app"), &reason)
        .with_metadata("upstream", "elsewhere")
        .with_metadata("attempt".to_string(), "2");
    assert_eq!(anomaly.metadata.len(), 4);
    assert_eq!(anomaly.metadata[0], "elsewhere");
    assert_eq!(anomaly.metadata["attempt"], "2");
}

#[test]
fn a_copy_of_an_anomaly_is_equal_to_it() {
    let reason = BlockReason {
        upstream: addr("dns"),
        required_phase: "Applied".to_string(),
        observed_phase: None,
        kind: DependencyKind::BlocksOn,
    };
    let anomaly = emit_blocked_anomaly(addr("app"), &reason);
    assert_eq!(anomaly.clone(), anomaly);
}

#[test]
fn a_halted_dependent_has_a_functional_anomaly() {
    let app = addr("app");
    let mut dep = LavaArchitectureDependency {
        from: app.clone(),
        to: addr("vpc"),
        kind: DependencyKind::BlocksOn,
        require_phase: "Applied".to_string(),
    };
    let registry = InMemoryPhaseRegistry::new().with(&addr("vpc"), "Planned");
    let verdict = DependencyResolver.resolve(&app, &[dep.clone()], &registry);
    assert!(!verdict.ready_for_reconcile());
    let anomaly = emit_blocked_anomaly(app.clone(), &verdict.blocks[0]);
    assert_eq!(anomaly.severity, Severity::Functional);

    dep.kind = DependencyKind::Influences;
    let verdict = DependencyResolver.resolve(&app, &[dep], &registry);
    assert!(verdict.ready_for_reconcile());
    let anomaly = emit_blocked_anomaly(app, &verdict.blocks[0]);
    assert_eq!(anomaly.severity, Severity::Cosmetic);
}
