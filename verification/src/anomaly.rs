//! What is reported of a blocked dependent.

use crate::address::{AddressView, ResourceAddress};
use crate::dependency::DependencyKind;
use crate::entries::{copy_map, entries_of, insert_entry, lookup, put};
use crate::resolver::{
    law_ready_unless_hard_block, verdict_on, BlockReason, BlockReasonView, Observation,
};
use crate::text::converts_to;
use indexmap::IndexMap;
use lava_anomaly::{AnomalyKind as RawKind, LavaAnomaly as RawAnomaly};
use lava_drift::Severity as RawSeverity;
use lava_outcome_chain::ResourceAddress as RawAddress;
use std::time::SystemTime;
use vstd::prelude::*;

verus! {

/// A point in time, carried as an opaque value.
#[verifier::external_type_specification]
#[verifier::external_body]
pub struct ExSystemTime(std::time::SystemTime);

/// The stable tag of an anomaly, on which routes and dashboards match.
#[derive(Clone, Copy, Debug, PartialEq, Eq, Structural)]
pub enum AnomalyKind {
    DriftDetected,
    SynthesisFailure,
    ApplyFailure,
    DependencyBlocked,
    PolicyViolation,
    Custom,
}

/// How much an anomaly matters.
#[derive(Clone, Copy, Debug, PartialEq, Eq, Structural)]
pub enum Severity {
    Cosmetic,
    Functional,
    Critical,
}

/// An anomaly as it goes to the outcome chain.
#[derive(Debug, PartialEq, Eq)]
pub struct LavaAnomaly {
    pub kind: AnomalyKind,
    /// The name of the kind where `kind` is `Custom`.
    pub extension_kind: Option<String>,
    pub severity: Severity,
    pub source: ResourceAddress,
    pub message: String,
    pub emitted_at: SystemTime,
    /// Further facts by name, in the order in which they were set.
    pub metadata: IndexMap<String, String>,
}

/// Calls `lava_anomaly::LavaAnomaly::new`. The anomaly carries the kind, the
/// severity, the source and the message that it is given, no extension kind and
/// no metadata, and the time at which it was made. Nothing is said of that time:
/// it is the reading of the system's clock, and where the clock stands before
/// 1970, which no argument decides, the call panics.
#[verifier::external_body]
fn new_anomaly(
    kind: AnomalyKind,
    severity: Severity,
    source: ResourceAddress,
    message: String,
) -> (anomaly: LavaAnomaly)
    ensures
        anomaly.kind == kind,
        anomaly.extension_kind is None,
        anomaly.severity == severity,
        anomaly.source@ == source@,
        anomaly.message@ == message@,
        entries_of(anomaly.metadata) == Seq::<(Seq<char>, Seq<char>)>::empty(),
{
    let tag = match kind {
        AnomalyKind::DriftDetected => RawKind::DriftDetected,
        AnomalyKind::SynthesisFailure => RawKind::SynthesisFailure,
        AnomalyKind::ApplyFailure => RawKind::ApplyFailure,
        AnomalyKind::DependencyBlocked => RawKind::DependencyBlocked,
        AnomalyKind::PolicyViolation => RawKind::PolicyViolation, AnomalyKind::Custom => RawKind::Custom,
    };
    let tier = match severity {
        Severity::Cosmetic => RawSeverity::Cosmetic, Severity::Functional => RawSeverity::Functional,
        Severity::Critical => RawSeverity::Critical,
    };
    let raw = RawAnomaly::new(tag, tier, RawAddress::new(source.cluster, source.namespace, source.name), message);
    let source = ResourceAddress { cluster: raw.source.cluster, namespace: raw.source.namespace, name: raw.source.name };
    LavaAnomaly { kind, extension_kind: raw.extension_kind, severity, source, message: raw.message, emitted_at: raw.emitted_at.into(), metadata: raw.metadata }
}

impl Clone for LavaAnomaly {
    fn clone(&self) -> (copy: Self)
        ensures
            copy.kind == self.kind,
            copy.extension_kind == self.extension_kind,
            copy.severity == self.severity,
            copy.source == self.source,
            copy.message == self.message,
            copy.emitted_at == self.emitted_at,
            entries_of(copy.metadata) == entries_of(self.metadata),
    {
        LavaAnomaly {
            kind: self.kind,
            extension_kind: self.extension_kind.clone(),
            severity: self.severity,
            source: self.source.clone(),
            message: self.message.clone(),
            emitted_at: self.emitted_at,
            metadata: copy_map(&self.metadata),
        }
    }
}

impl LavaAnomaly {
    /// This anomaly with a fact set by name, in place of an earlier one of that name.
    #[must_use]
    pub fn with_metadata<K: Into<String>, W: Into<String>>(self, key: K, value: W) -> (anomaly: Self)
        ensures
            anomaly.kind == self.kind,
            anomaly.extension_kind == self.extension_kind,
            anomaly.severity == self.severity,
            anomaly.source == self.source,
            anomaly.message == self.message,
            anomaly.emitted_at == self.emitted_at,
            exists|name: Seq<char>, text: Seq<char>|
                #![trigger converts_to(key, name), converts_to(value, text)]
                converts_to(key, name) && converts_to(value, text) && entries_of(anomaly.metadata)
                    == put(entries_of(self.metadata), name, text),
    {
        let mut anomaly: LavaAnomaly = self;
        let name: String = key.into();
        let text: String = value.into();
        assert(converts_to(key, name@) && converts_to(value, text@));
        insert_entry(&mut anomaly.metadata, name, text);
        anomaly
    }
}

/// The severity of being blocked by a dependency of this kind.
pub open spec fn severity_of(kind: DependencyKind) -> Severity {
    match kind {
        DependencyKind::BlocksOn => Severity::Functional,
        DependencyKind::Influences => Severity::Cosmetic,
    }
}

/// The name of a kind of dependency.
pub open spec fn kind_name(kind: DependencyKind) -> Seq<char> {
    match kind {
        DependencyKind::BlocksOn => "BlocksOn"@,
        DependencyKind::Influences => "Influences"@,
    }
}

/// The observed phase, or `otherwise` if there is none.
pub open spec fn observed_or(reason: BlockReasonView, otherwise: Seq<char>) -> Seq<char> {
    match reason.observed_phase {
        Some(phase) => phase,
        None => otherwise,
    }
}

/// The sentence on a reason for being blocked.
pub open spec fn blocked_message(reason: BlockReasonView) -> Seq<char> {
    "dependency "@ + kind_name(reason.kind) + ": upstream "@ + reason.upstream.dotted()
        + " expected "@ + reason.required_phase + ", observed "@ + observed_or(
        reason,
        "(absent)"@,
    )
}

/// The facts on a reason for being blocked, by name.
pub open spec fn blocked_metadata(reason: BlockReasonView) -> Seq<(Seq<char>, Seq<char>)> {
    seq![
        ("upstream"@, reason.upstream.dotted()),
        ("required_phase"@, reason.required_phase),
        ("observed_phase"@, observed_or(reason, "absent"@)),
    ]
}

/// The sentence on a reason for being blocked.
fn message_for(reason: &BlockReason) -> (message: String)
    ensures
        message@ == blocked_message(reason@),
{
    let mut message: String = "dependency ".to_string();
    message.append(
        match reason.kind {
            DependencyKind::BlocksOn => "BlocksOn",
            DependencyKind::Influences => "Influences",
        },
    );
    message.append(": upstream ");
    message.append(reason.upstream.dotted().as_str());
    message.append(" expected ");
    message.append(reason.required_phase.as_str());
    message.append(", observed ");
    message.append(
        match &reason.observed_phase {
            Some(phase) => phase.as_str(),
            None => "(absent)",
        },
    );
    message
}

/// The anomaly that reports a reason for which `dependent` is blocked. A hard
/// dependency makes it `Functional` (it goes away once the upstream catches
/// up), a soft one `Cosmetic` (it is an alert only).
#[must_use]
pub fn emit_blocked_anomaly(dependent: ResourceAddress, reason: &BlockReason) -> (anomaly:
    LavaAnomaly)
    ensures
        anomaly.kind == AnomalyKind::DependencyBlocked,
        anomaly.extension_kind is None,
        anomaly.severity == severity_of(reason.kind),
        anomaly.source@ == dependent@,
        anomaly.message@ == blocked_message(reason@),
        entries_of(anomaly.metadata) == blocked_metadata(reason@),
        reason.kind == DependencyKind::BlocksOn ==> anomaly.severity == Severity::Functional,
        reason.kind == DependencyKind::Influences ==> anomaly.severity == Severity::Cosmetic,
        lookup(entries_of(anomaly.metadata), "upstream"@) == Some(reason.upstream@.dotted()),
        lookup(entries_of(anomaly.metadata), "required_phase"@) == Some(reason.required_phase@),
        match reason.observed_phase {
            Some(phase) => lookup(entries_of(anomaly.metadata), "observed_phase"@) == Some(phase@),
            None => lookup(entries_of(anomaly.metadata), "observed_phase"@) == Some("absent"@),
        },
{
    let severity: Severity = match reason.kind {
        DependencyKind::BlocksOn => Severity::Functional,
        DependencyKind::Influences => Severity::Cosmetic,
    };
    let observed: &str = match &reason.observed_phase {
        Some(phase) => phase.as_str(),
        None => "absent",
    };
    let bare: LavaAnomaly = new_anomaly(
        AnomalyKind::DependencyBlocked,
        severity,
        dependent,
        message_for(reason),
    );
    let first: LavaAnomaly = bare.with_metadata("upstream", reason.upstream.dotted());
    let second: LavaAnomaly = first.with_metadata(
        "required_phase",
        reason.required_phase.as_str(),
    );
    let anomaly: LavaAnomaly = second.with_metadata("observed_phase", observed);
    proof {
        let facts = blocked_metadata(reason@);
        reveal_strlit("upstream");
        reveal_strlit("required_phase");
        reveal_strlit("observed_phase");
        assert("required_phase"@[0] != "observed_phase"@[0]);
        reveal_with_fuel(lookup, 3);
        assert(entries_of(first.metadata) =~= facts.take(1));
        assert(facts.take(1).drop_last() =~= Seq::empty());
        assert(lookup(facts.take(1), "required_phase"@) is None);
        assert(entries_of(second.metadata) =~= facts.take(2));
        assert(facts.take(2).drop_last() =~= facts.take(1));
        assert(lookup(facts.take(2), "observed_phase"@) is None);
        assert(entries_of(anomaly.metadata) =~= facts);
        assert(facts.drop_last() =~= facts.take(2));
    }
    anomaly
}

/// The dependent is ready exactly when all its blocks are reported as
/// `Cosmetic`: a `Functional` anomaly goes with a halted reconcile loop.
pub proof fn law_functional_anomaly_means_halted(dependent: AddressView, seen: Seq<Observation>)
    ensures
        verdict_on(dependent, seen).ready <==> forall|k: int|
            0 <= k < verdict_on(dependent, seen).blocks.len() ==> severity_of(
                (#[trigger] verdict_on(dependent, seen).blocks[k]).kind,
            ) == Severity::Cosmetic,
{
    law_ready_unless_hard_block(dependent, seen);
}

/// The facts say of a reason of either kind what was observed, or `absent` if
/// nothing was, next to the phase asked for and the upstream; and nothing more.
pub proof fn law_metadata_tells_the_reason(reason: BlockReasonView)
    ensures
        lookup(blocked_metadata(reason), "upstream"@) == Some(reason.upstream.dotted()),
        lookup(blocked_metadata(reason), "required_phase"@) == Some(reason.required_phase),
        match reason.observed_phase {
            Some(phase) => lookup(blocked_metadata(reason), "observed_phase"@) == Some(phase),
            None => lookup(blocked_metadata(reason), "observed_phase"@) == Some("absent"@),
        },
        blocked_metadata(reason).len() == 3,
        blocked_metadata(reason)[0].0 == "upstream"@,
        blocked_metadata(reason)[1].0 == "required_phase"@,
        blocked_metadata(reason)[2].0 == "observed_phase"@,
{
    let facts = blocked_metadata(reason);
    reveal_strlit("upstream");
    reveal_strlit("required_phase");
    reveal_strlit("observed_phase");
    assert("required_phase"@[0] != "observed_phase"@[0]);
    reveal_with_fuel(lookup, 3);
    assert(facts.drop_last().drop_last() =~= facts.take(1));
}

/// The facts do not depend on the kind of the dependency.
pub proof fn law_metadata_is_the_same_for_both_kinds(a: BlockReasonView, b: BlockReasonView)
    requires
        a.upstream == b.upstream,
        a.required_phase == b.required_phase,
        a.observed_phase == b.observed_phase,
    ensures
        blocked_metadata(a) == blocked_metadata(b),
{
}

/// A hard dependency is reported as `Functional`, a soft one as `Cosmetic`.
pub proof fn law_severity_follows_the_kind(reason: BlockReasonView)
    ensures
        severity_of(reason.kind) == Severity::Functional <==> reason.kind
            == DependencyKind::BlocksOn,
        severity_of(reason.kind) == Severity::Cosmetic <==> reason.kind
            == DependencyKind::Influences,
{
}

/// The sentence names the kind, the upstream, the phase asked for and the one
/// observed, or `(absent)` if there was none.
pub proof fn law_message_tells_the_reason(reason: BlockReasonView, observed: Seq<char>)
    requires
        match reason.observed_phase {
            Some(phase) => observed == phase,
            None => observed == "(absent)"@,
        },
    ensures
        reason.kind == DependencyKind::BlocksOn ==> blocked_message(reason) == "dependency "@
            + "BlocksOn"@ + ": upstream "@ + reason.upstream.dotted() + " expected "@
            + reason.required_phase + ", observed "@ + observed,
        reason.kind == DependencyKind::Influences ==> blocked_message(reason) == "dependency "@
            + "Influences"@ + ": upstream "@ + reason.upstream.dotted() + " expected "@
            + reason.required_phase + ", observed "@ + observed,
{
}

} // verus!
