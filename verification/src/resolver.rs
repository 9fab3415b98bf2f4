//! Which upstreams hold a dependent back.

use crate::address::{AddressView, ResourceAddress};
use crate::dependency::{
    law_views_keep_every_field, views, DependencyKind, DependencyView, LavaArchitectureDependency,
};
use crate::entries::{entries_of, law_lookup_after_put, lookup, put};
use crate::reach::{in_reach, law_reach_starts_at_itself, shared_dependencies};
use crate::registry::{phase_text, InMemoryPhaseRegistry, PhaseRegistry};
use vstd::prelude::*;

verus! {

/// What a [`BlockReason`] stands for.
pub struct BlockReasonView {
    pub upstream: AddressView,
    pub required_phase: Seq<char>,
    pub observed_phase: Option<Seq<char>>,
    pub kind: DependencyKind,
}

/// Why a dependent is blocked.
#[derive(Debug, PartialEq, Eq)]
pub struct BlockReason {
    pub upstream: ResourceAddress,
    pub required_phase: String,
    pub observed_phase: Option<String>,
    pub kind: DependencyKind,
}

impl View for BlockReason {
    type V = BlockReasonView;

    open spec fn view(&self) -> BlockReasonView {
        BlockReasonView {
            upstream: self.upstream@,
            required_phase: self.required_phase@,
            observed_phase: phase_text(self.observed_phase),
            kind: self.kind,
        }
    }
}

impl Clone for BlockReason {
    fn clone(&self) -> (copy: Self)
        ensures
            copy == *self,
    {
        BlockReason {
            upstream: self.upstream.clone(),
            required_phase: self.required_phase.clone(),
            observed_phase: self.observed_phase.clone(),
            kind: self.kind,
        }
    }
}

/// A dependency together with the phase in which its upstream was seen.
pub struct Observation {
    pub dependency: DependencyView,
    pub phase: Option<Seq<char>>,
}

impl Observation {
    /// The upstream is in the phase that the dependency asks for.
    pub open spec fn satisfied(self) -> bool {
        self.phase == Some(self.dependency.require_phase)
    }

    /// The upstream is in the phase `Failed`.
    pub open spec fn failed(self) -> bool {
        self.phase == Some("Failed"@)
    }

    /// The dependency is one of `dependent` and not satisfied.
    pub open spec fn blocks(self, dependent: AddressView) -> bool {
        self.dependency.from == dependent && !self.satisfied()
    }

    /// The dependency as a reason for being blocked.
    pub open spec fn reason(self) -> BlockReasonView {
        BlockReasonView {
            upstream: self.dependency.to,
            required_phase: self.dependency.require_phase,
            observed_phase: self.phase,
            kind: self.dependency.kind,
        }
    }
}

/// What a [`ResolutionVerdict`] stands for.
#[verifier::ext_equal]
pub struct VerdictView {
    pub ready: bool,
    pub blocks: Seq<BlockReasonView>,
    pub downstream_of_failed: Seq<AddressView>,
}

/// No hard dependency of `dependent` is unsatisfied.
pub open spec fn nothing_halts(dependent: AddressView, seen: Seq<Observation>) -> bool {
    forall|i: int|
        #![trigger seen[i]]
        0 <= i < seen.len() && seen[i].blocks(dependent) ==> seen[i].dependency.kind
            == DependencyKind::Influences
}

/// The unsatisfied dependencies of `dependent`, in the order in which they were seen.
pub open spec fn blocking(dependent: AddressView, seen: Seq<Observation>) -> Seq<Observation> {
    seen.filter(|o: Observation| o.blocks(dependent))
}

/// The dependencies on a failed upstream that `dependent` has a share in when
/// `deps` are declared, in the order in which they were seen.
pub open spec fn failing(
    dependent: AddressView,
    deps: Seq<DependencyView>,
    seen: Seq<Observation>,
) -> Seq<Observation> {
    seen.filter(|o: Observation| o.failed() && in_reach(deps, dependent, o.dependency.from))
}

/// The verdict on `dependent` from the dependencies seen so far, when `deps` are declared.
pub open spec fn verdict_so_far(
    dependent: AddressView,
    deps: Seq<DependencyView>,
    seen: Seq<Observation>,
) -> VerdictView {
    VerdictView {
        ready: nothing_halts(dependent, seen),
        blocks: blocking(dependent, seen).map_values(|o: Observation| o.reason()),
        downstream_of_failed: failing(dependent, deps, seen).map_values(
            |o: Observation| o.dependency.to,
        ),
    }
}

/// The dependencies that were looked at.
pub open spec fn dependencies_of(seen: Seq<Observation>) -> Seq<DependencyView> {
    seen.map_values(|o: Observation| o.dependency)
}

/// The verdict on `dependent` when the declared dependencies were seen like this.
pub open spec fn verdict_on(dependent: AddressView, seen: Seq<Observation>) -> VerdictView {
    verdict_so_far(dependent, dependencies_of(seen), seen)
}

/// The verdict on one dependent.
#[derive(Debug, PartialEq, Eq)]
pub struct ResolutionVerdict {
    /// Every `BlocksOn` upstream is in the phase that was asked for.
    pub ready: bool,
    /// The dependencies whose upstream is not in the phase that was asked for,
    /// hard and soft ones.
    pub blocks: Vec<BlockReason>,
    /// The upstreams in the phase `Failed` that the dependent depends on,
    /// directly or through others: one for each dependency that leads to one.
    pub downstream_of_failed: Vec<ResourceAddress>,
}

impl View for ResolutionVerdict {
    type V = VerdictView;

    open spec fn view(&self) -> VerdictView {
        VerdictView {
            ready: self.ready,
            blocks: self.blocks@.map_values(|block: BlockReason| block@),
            downstream_of_failed: self.downstream_of_failed@.map_values(
                |address: ResourceAddress| address@,
            ),
        }
    }
}

impl VerdictView {
    /// This verdict on `dependent` with one more dependency taken in that it has a share in.
    pub open spec fn record(self, dependent: AddressView, o: Observation) -> VerdictView {
        VerdictView {
            ready: self.ready && (o.blocks(dependent) ==> o.dependency.kind
                == DependencyKind::Influences),
            blocks: if o.blocks(dependent) {
                self.blocks.push(o.reason())
            } else {
                self.blocks
            },
            downstream_of_failed: if o.failed() {
                self.downstream_of_failed.push(o.dependency.to)
            } else {
                self.downstream_of_failed
            },
        }
    }
}

impl ResolutionVerdict {
    /// True when no `BlocksOn` upstream is blocking. `Influences` blocks do
    /// not gate readiness.
    #[must_use]
    pub fn ready_for_reconcile(&self) -> (ready: bool)
        ensures
            ready == self@.ready,
            ready == self.ready,
    {
        self.ready
    }

    /// The verdict on a dependent without dependencies.
    fn clear() -> (verdict: Self)
        ensures
            verdict@ == (VerdictView {
                ready: true,
                blocks: Seq::empty(),
                downstream_of_failed: Seq::empty(),
            }),
    {
        let verdict = ResolutionVerdict {
            ready: true,
            blocks: Vec::new(),
            downstream_of_failed: Vec::new(),
        };
        assert(verdict@.blocks =~= Seq::empty());
        assert(verdict@.downstream_of_failed =~= Seq::empty());
        verdict
    }

    /// Takes in one dependency that `dependent` has a share in, its own one or
    /// one of an upstream that it depends on, with the phase in which the
    /// upstream of that dependency was seen.
    pub fn record(
        &mut self,
        dependent: &ResourceAddress,
        dependency: &LavaArchitectureDependency,
        observed: Option<String>,
    )
        ensures
            final(self)@ == old(self)@.record(
                dependent@,
                Observation { dependency: dependency@, phase: phase_text(observed) },
            ),
            final(self).ready == (old(self).ready && (dependency.from@ == dependent@
                && dependency.kind == DependencyKind::BlocksOn ==> phase_text(observed) == Some(
                dependency.require_phase@,
            ))),
            if dependency.from@ == dependent@ && phase_text(observed) != Some(
                dependency.require_phase@,
            ) {
                &&& final(self).blocks@.len() == old(self).blocks@.len() + 1
                &&& final(self).blocks@.drop_last() == old(self).blocks@
                &&& final(self).blocks@.last().upstream@ == dependency.to@
                &&& final(self).blocks@.last().required_phase@ == dependency.require_phase@
                &&& phase_text(final(self).blocks@.last().observed_phase) == phase_text(observed)
                &&& final(self).blocks@.last().kind == dependency.kind
            } else {
                final(self).blocks@ == old(self).blocks@
            },
            if phase_text(observed) == Some("Failed"@) {
                &&& final(self).downstream_of_failed@.len() == old(
                    self,
                ).downstream_of_failed@.len() + 1
                &&& final(self).downstream_of_failed@.drop_last() == old(
                    self,
                ).downstream_of_failed@
                &&& final(self).downstream_of_failed@.last()@ == dependency.to@
            } else {
                final(self).downstream_of_failed@ == old(self).downstream_of_failed@
            },
    {
        let ghost o = Observation { dependency: dependency@, phase: phase_text(observed) };
        let satisfied: bool = match &observed {
            Some(phase) => *phase == dependency.require_phase,
            None => false,
        };
        let failed: bool = match &observed {
            Some(phase) => *phase == "Failed".to_string(),
            None => false,
        };
        assert(satisfied == o.satisfied());
        assert(failed == o.failed());
        if dependency.from == *dependent && !satisfied {
            self.blocks.push(
                BlockReason {
                    upstream: dependency.to.clone(),
                    required_phase: dependency.require_phase.clone(),
                    observed_phase: observed,
                    kind: dependency.kind,
                },
            );
            if matches!(dependency.kind, DependencyKind::BlocksOn) {
                self.ready = false;
            }
        }
        if failed {
            self.downstream_of_failed.push(dependency.to.clone());
        }
        proof {
            assert(self@ =~= old(self)@.record(dependent@, o));
        }
    }
}

/// `seen` holds each of `deps` in turn, those that `dependent` has a share in
/// with a phase that `registry` reported for the upstream.
pub open spec fn seen_through<R: PhaseRegistry>(
    registry: &R,
    dependent: AddressView,
    deps: Seq<DependencyView>,
    seen: Seq<Observation>,
) -> bool {
    &&& dependencies_of(seen) == deps
    &&& forall|i: int|
        #![trigger seen[i]]
        0 <= i < seen.len() && in_reach(deps, dependent, deps[i].from) ==> registry.reports(
            deps[i].to,
            seen[i].phase,
        )
}

proof fn lemma_filter_push<A>(items: Seq<A>, keep: spec_fn(A) -> bool, item: A)
    ensures
        items.push(item).filter(keep) == if keep(item) {
            items.filter(keep).push(item)
        } else {
            items.filter(keep)
        },
{
    reveal(Seq::filter);
    assert(items.push(item).drop_last() =~= items);
}

proof fn lemma_map_push<A, B>(items: Seq<A>, f: spec_fn(A) -> B, item: A)
    ensures
        items.push(item).map_values(f) == items.map_values(f).push(f(item)),
{
    assert(items.push(item).map_values(f) =~= items.map_values(f).push(f(item)));
}

/// A further observation adds to the verdict what it says of the dependent, if anything.
pub proof fn law_verdict_grows_by_one(
    dependent: AddressView,
    deps: Seq<DependencyView>,
    seen: Seq<Observation>,
    o: Observation,
)
    ensures
        verdict_so_far(dependent, deps, seen.push(o)) == if in_reach(
            deps,
            dependent,
            o.dependency.from,
        ) {
            verdict_so_far(dependent, deps, seen).record(dependent, o)
        } else {
            verdict_so_far(dependent, deps, seen)
        },
{
    let more = seen.push(o);
    let stops = |o: Observation| o.blocks(dependent);
    let fails = |o: Observation| o.failed() && in_reach(deps, dependent, o.dependency.from);
    law_reach_starts_at_itself(deps, dependent);
    lemma_filter_push(seen, stops, o);
    lemma_filter_push(seen, fails, o);
    lemma_map_push(seen.filter(stops), |o: Observation| o.reason(), o);
    lemma_map_push(seen.filter(fails), |o: Observation| o.dependency.to, o);
    assert(more[seen.len() as int] == o);
    if nothing_halts(dependent, more) {
        assert forall|i: int|
            #![trigger seen[i]]
            0 <= i < seen.len() && seen[i].blocks(dependent) implies seen[i].dependency.kind
            == DependencyKind::Influences by {
            assert(more[i] == seen[i]);
        }
    }
}

/// Decides from declared dependencies and observed phases.
#[derive(Debug, Default, Clone, Copy)]
pub struct DependencyResolver;

impl DependencyResolver {
    /// The verdict on one dependent, given the declared dependencies and a
    /// registry of the current phases. The registry is asked for the upstreams
    /// that the dependent depends on, and for no others.
    #[must_use]
    pub fn resolve<R: PhaseRegistry>(
        &self,
        dependent: &ResourceAddress,
        deps: &[LavaArchitectureDependency],
        registry: &R,
    ) -> (verdict: ResolutionVerdict)
        ensures
            exists|seen: Seq<Observation>|
                {
                    &&& #[trigger] seen_through(registry, dependent@, views(deps@), seen)
                    &&& verdict@ == verdict_on(dependent@, seen)
                    &&& verdict.ready <==> forall|i: int|
                        #![trigger deps@[i]]
                        0 <= i < deps@.len() && deps@[i].from@ == dependent@ && deps@[i].kind
                            == DependencyKind::BlocksOn ==> seen[i].phase == Some(
                            deps@[i].require_phase@,
                        )
                },
    {
        let shared: Vec<bool> = shared_dependencies(dependent, deps);
        let mut verdict: ResolutionVerdict = ResolutionVerdict::clear();
        let ghost mut seen: Seq<Observation> = Seq::empty();
        let ghost all = views(deps@);
        let mut i: usize = 0;
        assert(verdict@ =~= verdict_so_far(dependent@, all, seen)) by {
            reveal(Seq::filter);
        }
        while i < deps.len()
            invariant
                i <= deps@.len(),
                i == seen.len(),
                all == views(deps@),
                shared@.len() == deps@.len(),
                forall|k: int|
                    #![trigger shared@[k]]
                    0 <= k < deps@.len() ==> shared@[k] == in_reach(all, dependent@, all[k].from),
                forall|k: int|
                    #![trigger seen[k]]
                    0 <= k < i ==> {
                        &&& seen[k].dependency == all[k]
                        &&& in_reach(all, dependent@, all[k].from) ==> registry.reports(
                            all[k].to,
                            seen[k].phase,
                        )
                    },
                verdict@ == verdict_so_far(dependent@, all, seen),
            decreases deps@.len() - i,
        {
            let dependency: &LavaArchitectureDependency = &deps[i];
            if shared[i] {
                let observed: Option<String> = registry.phase_of(&dependency.to);
                let ghost o = Observation { dependency: dependency@, phase: phase_text(observed) };
                verdict.record(dependent, dependency, observed);
                proof {
                    law_verdict_grows_by_one(dependent@, all, seen, o);
                    seen = seen.push(o);
                }
            } else {
                proof {
                    let o = Observation { dependency: dependency@, phase: None };
                    law_verdict_grows_by_one(dependent@, all, seen, o);
                    seen = seen.push(o);
                }
            }
            i = i + 1;
        }
        proof {
            assert(dependencies_of(seen) =~= all);
            assert(seen_through(registry, dependent@, all, seen));
            let found = law_verdict_field_by_field(registry, *dependent, deps@, seen, verdict);
            assert forall|i: int| #![trigger deps@[i]] 0 <= i < deps@.len() implies found.0[i]
                == seen[i].phase by {}
        }
        verdict
    }
}

/// What is kept of a list is what is in it and passes the test.
proof fn lemma_kept<A>(items: Seq<A>, keep: spec_fn(A) -> bool)
    ensures
        forall|k: int|
            0 <= k < items.filter(keep).len() ==> keep(#[trigger] items.filter(keep)[k])
                && items.contains(items.filter(keep)[k]),
        forall|i: int|
            0 <= i < items.len() && keep(#[trigger] items[i]) ==> items.filter(keep).contains(
                items[i],
            ),
    decreases items.len(),
{
    reveal(Seq::filter);
    if items.len() > 0 {
        let fewer = items.drop_last();
        let kept = items.filter(keep);
        let kept_before = fewer.filter(keep);
        lemma_kept(fewer, keep);
        assert forall|k: int| 0 <= k < kept.len() implies keep(#[trigger] kept[k])
            && items.contains(kept[k]) by {
            if k < kept_before.len() {
                assert(fewer.contains(kept_before[k]));
                let i = choose|i: int| 0 <= i < fewer.len() && fewer[i] == kept_before[k];
                assert(items[i] == kept[k]);
            } else {
                assert(items[items.len() - 1] == kept[k]);
            }
        }
        assert forall|i: int| 0 <= i < items.len() && keep(#[trigger] items[i]) implies kept.contains(
            items[i],
        ) by {
            if i < fewer.len() {
                assert(keep(fewer[i]));
                assert(kept_before.contains(fewer[i]));
                let k = choose|k: int| 0 <= k < kept_before.len() && kept_before[k] == fewer[i];
                assert(kept[k] == items[i]);
            } else {
                assert(kept[kept_before.len() as int] == items[i]);
            }
        }
    }
}

/// Filtering by a test and then by a stricter one is filtering by the stricter one.
proof fn lemma_filter_twice<A>(items: Seq<A>, loose: spec_fn(A) -> bool, strict: spec_fn(A) -> bool)
    requires
        forall|item: A| #[trigger] strict(item) ==> loose(item),
    ensures
        items.filter(loose).filter(strict) == items.filter(strict),
    decreases items.len(),
{
    reveal(Seq::filter);
    if items.len() > 0 {
        lemma_filter_twice(items.drop_last(), loose, strict);
        if loose(items.last()) {
            lemma_filter_push(items.drop_last().filter(loose), strict, items.last());
        }
    }
}

/// The blocks are the reasons of exactly those dependencies of the dependent
/// whose upstream is not in the phase asked for, hard and soft ones alike.
pub proof fn law_blocks_are_the_unsatisfied(
    dependent: AddressView,
    seen: Seq<Observation>,
    reason: BlockReasonView,
)
    ensures
        verdict_on(dependent, seen).blocks.contains(reason) <==> exists|i: int|
            #![trigger seen[i]]
            0 <= i < seen.len() && seen[i].blocks(dependent) && seen[i].reason() == reason,
{
    let stops = |o: Observation| o.blocks(dependent);
    let kept = blocking(dependent, seen);
    let blocks = verdict_on(dependent, seen).blocks;
    lemma_kept(seen, stops);
    if blocks.contains(reason) {
        let k = choose|k: int| 0 <= k < blocks.len() && blocks[k] == reason;
        assert(stops(kept[k]) && seen.contains(kept[k]));
        let i = choose|i: int| 0 <= i < seen.len() && seen[i] == kept[k];
        assert(seen[i].blocks(dependent) && seen[i].reason() == reason);
    }
    if exists|i: int|
        #![trigger seen[i]]
        0 <= i < seen.len() && seen[i].blocks(dependent) && seen[i].reason() == reason {
        let i = choose|i: int|
            #![trigger seen[i]]
            0 <= i < seen.len() && seen[i].blocks(dependent) && seen[i].reason() == reason;
        assert(stops(seen[i]));
        let k = choose|k: int| 0 <= k < kept.len() && kept[k] == seen[i];
        assert(blocks[k] == reason);
    }
}

/// The dependent is ready unless one of its blocks is a hard one: `Influences`
/// blocks do not gate readiness.
pub proof fn law_ready_unless_hard_block(dependent: AddressView, seen: Seq<Observation>)
    ensures
        verdict_on(dependent, seen).ready <==> forall|k: int|
            0 <= k < verdict_on(dependent, seen).blocks.len() ==> (
            #[trigger] verdict_on(dependent, seen).blocks[k]).kind == DependencyKind::Influences,
{
    let verdict = verdict_on(dependent, seen);
    if verdict.ready {
        assert forall|k: int| 0 <= k < verdict.blocks.len() implies (#[trigger] verdict.blocks[k]).kind
            == DependencyKind::Influences by {
            law_blocks_are_the_unsatisfied(dependent, seen, verdict.blocks[k]);
            assert(verdict.blocks.contains(verdict.blocks[k]));
        }
    } else {
        let i = choose|i: int|
            #![trigger seen[i]]
            0 <= i < seen.len() && seen[i].blocks(dependent) && seen[i].dependency.kind
                != DependencyKind::Influences;
        law_blocks_are_the_unsatisfied(dependent, seen, seen[i].reason());
        let k = choose|k: int| 0 <= k < verdict.blocks.len() && verdict.blocks[k]
            == seen[i].reason();
        assert(verdict.blocks[k].kind != DependencyKind::Influences);
    }
}

/// A dependent without unsatisfied dependencies, such as one without any, is
/// ready and has no blocks.
pub proof fn law_ready_when_nothing_is_unsatisfied(dependent: AddressView, seen: Seq<Observation>)
    requires
        forall|i: int|
            #![trigger seen[i]]
            0 <= i < seen.len() && seen[i].dependency.from == dependent ==> seen[i].satisfied(),
    ensures
        verdict_on(dependent, seen).ready,
        verdict_on(dependent, seen).blocks.len() == 0,
{
    let blocks = verdict_on(dependent, seen).blocks;
    if blocks.len() > 0 {
        assert(blocks.contains(blocks[0]));
        law_blocks_are_the_unsatisfied(dependent, seen, blocks[0]);
    }
}

/// A dependent whose dependencies are all soft is ready, whatever was seen.
pub proof fn law_soft_dependencies_never_halt(dependent: AddressView, seen: Seq<Observation>)
    requires
        forall|i: int|
            #![trigger seen[i]]
            0 <= i < seen.len() && seen[i].dependency.from == dependent ==> seen[i].dependency.kind
                == DependencyKind::Influences,
    ensures
        verdict_on(dependent, seen).ready,
{
}

/// A hard dependency whose upstream is in another phase, or not known, halts the dependent.
pub proof fn law_hard_dependency_halts(dependent: AddressView, seen: Seq<Observation>, i: int)
    requires
        0 <= i < seen.len(),
        seen[i].dependency.from == dependent,
        seen[i].dependency.kind == DependencyKind::BlocksOn,
        !seen[i].satisfied(),
    ensures
        !verdict_on(dependent, seen).ready,
        verdict_on(dependent, seen).blocks.contains(seen[i].reason()),
{
    assert(seen[i].blocks(dependent));
    law_blocks_are_the_unsatisfied(dependent, seen, seen[i].reason());
}

/// Readiness and blocks depend on the dependencies of the dependent alone.
pub proof fn law_dependencies_of_others_do_not_block(
    dependent: AddressView,
    seen: Seq<Observation>,
)
    ensures
        verdict_on(dependent, seen).ready == verdict_on(
            dependent,
            seen.filter(|o: Observation| o.dependency.from == dependent),
        ).ready,
        verdict_on(dependent, seen).blocks == verdict_on(
            dependent,
            seen.filter(|o: Observation| o.dependency.from == dependent),
        ).blocks,
{
    let is_own = |o: Observation| o.dependency.from == dependent;
    let own = seen.filter(is_own);
    lemma_filter_twice(seen, is_own, |o: Observation| o.blocks(dependent));
    assert(verdict_on(dependent, seen).blocks == verdict_on(dependent, own).blocks);
    law_ready_unless_hard_block(dependent, seen);
    law_ready_unless_hard_block(dependent, own);
}

/// Exactly those failed upstreams are listed that the dependent depends on,
/// directly or through others.
pub proof fn law_failed_upstreams_are_listed(
    dependent: AddressView,
    seen: Seq<Observation>,
    upstream: AddressView,
)
    ensures
        verdict_on(dependent, seen).downstream_of_failed.contains(upstream) <==> exists|i: int|
            #![trigger seen[i]]
            0 <= i < seen.len() && seen[i].failed() && seen[i].dependency.to == upstream
                && in_reach(dependencies_of(seen), dependent, seen[i].dependency.from),
{
    let deps = dependencies_of(seen);
    let fails = |o: Observation| o.failed() && in_reach(deps, dependent, o.dependency.from);
    let kept = failing(dependent, deps, seen);
    let listed = verdict_on(dependent, seen).downstream_of_failed;
    lemma_kept(seen, fails);
    if listed.contains(upstream) {
        let k = choose|k: int| 0 <= k < listed.len() && listed[k] == upstream;
        assert(fails(kept[k]) && seen.contains(kept[k]));
        let i = choose|i: int| 0 <= i < seen.len() && seen[i] == kept[k];
        assert(seen[i].failed() && seen[i].dependency.to == upstream);
    }
    if exists|i: int|
        #![trigger seen[i]]
        0 <= i < seen.len() && seen[i].failed() && seen[i].dependency.to == upstream && in_reach(
            deps,
            dependent,
            seen[i].dependency.from,
        ) {
        let i = choose|i: int|
            #![trigger seen[i]]
            0 <= i < seen.len() && seen[i].failed() && seen[i].dependency.to == upstream
                && in_reach(deps, dependent, seen[i].dependency.from);
        assert(fails(seen[i]));
        let k = choose|k: int| 0 <= k < kept.len() && kept[k] == seen[i];
        assert(listed[k] == upstream);
    }
}

/// A failed upstream of the dependent's own is listed, and blocks it unless
/// `Failed` is the phase asked for.
pub proof fn law_own_failed_upstream(dependent: AddressView, seen: Seq<Observation>, i: int)
    requires
        0 <= i < seen.len(),
        seen[i].dependency.from == dependent,
        seen[i].failed(),
    ensures
        verdict_on(dependent, seen).downstream_of_failed.contains(seen[i].dependency.to),
        seen[i].dependency.require_phase != "Failed"@ ==> verdict_on(
            dependent,
            seen,
        ).blocks.contains(seen[i].reason()),
{
    law_reach_starts_at_itself(dependencies_of(seen), dependent);
    law_failed_upstreams_are_listed(dependent, seen, seen[i].dependency.to);
    law_blocks_are_the_unsatisfied(dependent, seen, seen[i].reason());
}

/// The verdict is a function of the dependent, the dependencies and the
/// phases, as far as the registry has one answer to each question.
pub proof fn law_verdict_is_determined<R: PhaseRegistry>(
    registry: &R,
    dependent: AddressView,
    deps: Seq<DependencyView>,
    seen: Seq<Observation>,
    again: Seq<Observation>,
)
    requires
        forall|address: AddressView, phase: Option<Seq<char>>, other: Option<Seq<char>>|
            #[trigger] registry.reports(address, phase) && #[trigger] registry.reports(
                address,
                other,
            ) ==> phase == other,
        seen_through(registry, dependent, deps, seen),
        seen_through(registry, dependent, deps, again),
    ensures
        verdict_on(dependent, seen) == verdict_on(dependent, again),
{
    assert(seen.len() == dependencies_of(seen).len());
    assert(again.len() == dependencies_of(again).len());
    lemma_same_verdict(registry, dependent, deps, seen, again, seen.len());
    assert(seen.take(seen.len() as int) =~= seen);
    assert(again.take(seen.len() as int) =~= again);
}

/// The dependencies as they are seen when the phases are those on record.
pub open spec fn seen_in_memory(
    registry: InMemoryPhaseRegistry,
    deps: Seq<DependencyView>,
) -> Seq<Observation> {
    deps.map_values(
        |dep: DependencyView| Observation { dependency: dep, phase: registry.phase_at(dep.to) },
    )
}

/// Through a registry in memory the verdict is the one on the phases on record.
pub proof fn law_verdict_from_memory(
    registry: InMemoryPhaseRegistry,
    dependent: AddressView,
    deps: Seq<DependencyView>,
    seen: Seq<Observation>,
)
    requires
        seen_through(&registry, dependent, deps, seen),
    ensures
        verdict_on(dependent, seen) == verdict_on(dependent, seen_in_memory(registry, deps)),
{
    let recorded = seen_in_memory(registry, deps);
    assert(dependencies_of(recorded) =~= deps);
    assert(seen_through(&registry, dependent, deps, recorded));
    law_verdict_is_determined(&registry, dependent, deps, seen, recorded);
}

proof fn lemma_same_verdict<R: PhaseRegistry>(
    registry: &R,
    dependent: AddressView,
    deps: Seq<DependencyView>,
    seen: Seq<Observation>,
    again: Seq<Observation>,
    n: nat,
)
    requires
        forall|address: AddressView, phase: Option<Seq<char>>, other: Option<Seq<char>>|
            #[trigger] registry.reports(address, phase) && #[trigger] registry.reports(
                address,
                other,
            ) ==> phase == other,
        seen_through(registry, dependent, deps, seen),
        seen_through(registry, dependent, deps, again),
        seen.len() == again.len(),
        n <= seen.len(),
    ensures
        verdict_so_far(dependent, deps, seen.take(n as int)) == verdict_so_far(
            dependent,
            deps,
            again.take(n as int),
        ),
    decreases n,
{
    if n == 0 {
        assert(seen.take(0) =~= again.take(0));
    } else {
        let i = n - 1;
        lemma_same_verdict(registry, dependent, deps, seen, again, i as nat);
        assert(seen.take(n as int) =~= seen.take(i).push(seen[i]));
        assert(again.take(n as int) =~= again.take(i).push(again[i]));
        law_verdict_grows_by_one(dependent, deps, seen.take(i), seen[i]);
        law_verdict_grows_by_one(dependent, deps, again.take(i), again[i]);
        assert(dependencies_of(seen)[i] == seen[i].dependency);
        assert(dependencies_of(again)[i] == again[i].dependency);
        if in_reach(deps, dependent, deps[i].from) {
            assert(registry.reports(deps[i].to, seen[i].phase));
            assert(registry.reports(deps[i].to, again[i].phase));
        }
    }
}

/// What is kept of a list, by the places at which it stands there.
proof fn lemma_kept_places<A>(items: Seq<A>, keep: spec_fn(A) -> bool) -> (at: Seq<int>)
    ensures
        at.len() == items.filter(keep).len(),
        forall|k: int|
            #![trigger at[k]]
            0 <= k < at.len() ==> 0 <= at[k] < items.len() && items.filter(keep)[k] == items[at[k]]
                && keep(items[at[k]]),
        forall|j: int, k: int| 0 <= j < k < at.len() ==> #[trigger] at[j] < #[trigger] at[k],
        forall|i: int|
            #![trigger items[i]]
            0 <= i < items.len() && keep(items[i]) ==> at.contains(i),
    decreases items.len(),
{
    reveal(Seq::filter);
    if items.len() == 0 {
        Seq::empty()
    } else {
        let fewer = items.drop_last();
        let before = lemma_kept_places(fewer, keep);
        let last = items.len() - 1;
        let at = if keep(items.last()) {
            before.push(last)
        } else {
            before
        };
        assert forall|k: int| #![trigger at[k]] 0 <= k < at.len() implies 0 <= at[k] < items.len()
            && items.filter(keep)[k] == items[at[k]] && keep(items[at[k]]) by {
            if k < before.len() {
                assert(at[k] == before[k]);
                assert(items[at[k]] == fewer[before[k]]);
            }
        }
        assert forall|j: int, k: int| 0 <= j < k < at.len() implies #[trigger] at[j]
            < #[trigger] at[k] by {
            assert(at[j] == before[j]);
            if k < before.len() {
                assert(at[k] == before[k]);
            }
        }
        assert forall|i: int| #![trigger items[i]] 0 <= i < items.len() && keep(
            items[i],
        ) implies at.contains(i) by {
            if i < last {
                assert(fewer[i] == items[i]);
                assert(before.contains(i));
                let k = choose|k: int| 0 <= k < before.len() && before[k] == i;
                assert(at[k] == i);
            } else {
                assert(at[before.len() as int] == i);
            }
        }
        at
    }
}

/// The dependent is ready exactly when the upstream of each hard dependency that
/// it declares was seen in the very phase that this dependency asks for.
pub proof fn law_ready_means_required_phases(dependent: AddressView, seen: Seq<Observation>)
    ensures
        verdict_on(dependent, seen).ready <==> forall|i: int|
            #![trigger seen[i]]
            0 <= i < seen.len() && seen[i].dependency.from == dependent && seen[i].dependency.kind
                == DependencyKind::BlocksOn ==> seen[i].phase == Some(
                seen[i].dependency.require_phase,
            ),
{
    let verdict = verdict_on(dependent, seen);
    if verdict.ready {
        assert forall|i: int|
            #![trigger seen[i]]
            0 <= i < seen.len() && seen[i].dependency.from == dependent && seen[i].dependency.kind
                == DependencyKind::BlocksOn implies seen[i].phase == Some(
            seen[i].dependency.require_phase,
        ) by {
            assert(!seen[i].blocks(dependent));
        }
    }
}

/// The blocks stand for the dependencies at the places `at`, in the order of
/// these places: the ones that the dependent declares and whose upstream was not
/// seen in the phase asked for. Each block holds the upstream, the phase asked
/// for and the kind of its dependency, and the phase that was seen.
pub proof fn law_blocks_tell_what_was_seen(dependent: AddressView, seen: Seq<Observation>) -> (at:
    Seq<int>)
    ensures
        at.len() == verdict_on(dependent, seen).blocks.len(),
        forall|j: int, k: int| 0 <= j < k < at.len() ==> #[trigger] at[j] < #[trigger] at[k],
        forall|k: int|
            #![trigger at[k]]
            0 <= k < at.len() ==> {
                let o = seen[at[k]];
                let block = verdict_on(dependent, seen).blocks[k];
                &&& 0 <= at[k] < seen.len()
                &&& o.dependency.from == dependent
                &&& o.phase != Some(o.dependency.require_phase)
                &&& block.upstream == o.dependency.to
                &&& block.required_phase == o.dependency.require_phase
                &&& block.observed_phase == o.phase
                &&& block.kind == o.dependency.kind
            },
        forall|i: int|
            #![trigger seen[i]]
            0 <= i < seen.len() && seen[i].dependency.from == dependent && seen[i].phase != Some(
                seen[i].dependency.require_phase,
            ) ==> at.contains(i),
{
    let stops = |o: Observation| o.blocks(dependent);
    let at = lemma_kept_places(seen, stops);
    assert forall|i: int|
        #![trigger seen[i]]
        0 <= i < seen.len() && seen[i].dependency.from == dependent && seen[i].phase != Some(
            seen[i].dependency.require_phase,
        ) implies at.contains(i) by {
        assert(stops(seen[i]));
    }
    at
}

/// The listed upstreams are those of the dependencies at the places `at`, in the
/// order of these places: the ones whose upstream was seen as `Failed` and whose
/// own dependent is in the reach of `dependent`, whatever their addresses.
pub proof fn law_failed_upstreams_tell_what_was_seen(
    dependent: AddressView,
    deps: Seq<DependencyView>,
    seen: Seq<Observation>,
) -> (at: Seq<int>)
    requires
        deps.len() == seen.len(),
        forall|i: int| #![trigger seen[i]] 0 <= i < seen.len() ==> seen[i].dependency == deps[i],
    ensures
        at.len() == verdict_on(dependent, seen).downstream_of_failed.len(),
        forall|j: int, k: int| 0 <= j < k < at.len() ==> #[trigger] at[j] < #[trigger] at[k],
        forall|k: int|
            #![trigger at[k]]
            0 <= k < at.len() ==> {
                &&& 0 <= at[k] < seen.len()
                &&& seen[at[k]].phase == Some("Failed"@)
                &&& in_reach(deps, dependent, deps[at[k]].from)
                &&& verdict_on(dependent, seen).downstream_of_failed[k] == deps[at[k]].to
            },
        forall|i: int|
            #![trigger seen[i]]
            0 <= i < seen.len() && seen[i].phase == Some("Failed"@) && (deps[i].from == dependent
                || in_reach(deps, dependent, deps[i].from)) ==> at.contains(i),
{
    assert(dependencies_of(seen) =~= deps);
    let fails = |o: Observation| o.failed() && in_reach(deps, dependent, o.dependency.from);
    let at = lemma_kept_places(seen, fails);
    law_reach_starts_at_itself(deps, dependent);
    assert forall|k: int| #![trigger at[k]] 0 <= k < at.len() implies {
        &&& 0 <= at[k] < seen.len()
        &&& seen[at[k]].phase == Some("Failed"@)
        &&& in_reach(deps, dependent, deps[at[k]].from)
        &&& verdict_on(dependent, seen).downstream_of_failed[k] == deps[at[k]].to
    } by {
        assert(fails(seen[at[k]]));
        assert(seen[at[k]].dependency == deps[at[k]]);
    }
    assert forall|i: int|
        #![trigger seen[i]]
        0 <= i < seen.len() && seen[i].phase == Some("Failed"@) && (deps[i].from == dependent
            || in_reach(deps, dependent, deps[i].from)) implies at.contains(i) by {
        assert(fails(seen[i]));
    }
    at
}

/// What was seen holds the declared dependencies one by one, and the phases of
/// all that the dependent depends on, directly or through others, come from the
/// registry.
pub proof fn law_phases_come_from_the_registry<R: PhaseRegistry>(
    registry: &R,
    dependent: AddressView,
    deps: Seq<DependencyView>,
    seen: Seq<Observation>,
)
    requires
        seen_through(registry, dependent, deps, seen),
    ensures
        seen.len() == deps.len(),
        forall|i: int| #![trigger seen[i]] 0 <= i < deps.len() ==> seen[i].dependency == deps[i],
        forall|i: int|
            #![trigger seen[i]]
            0 <= i < deps.len() && (deps[i].from == dependent || in_reach(
                deps,
                dependent,
                deps[i].from,
            )) ==> registry.reports(deps[i].to, seen[i].phase),
{
    law_reach_starts_at_itself(deps, dependent);
    assert(seen.len() == dependencies_of(seen).len());
    assert forall|i: int| #![trigger seen[i]] 0 <= i < deps.len() implies seen[i].dependency
        == deps[i] by {
        assert(dependencies_of(seen)[i] == seen[i].dependency);
    }
}

/// A verdict through any registry, field by field. `found.0` holds the phases
/// that were seen, which for the dependent's own dependencies are answers of the
/// registry. The dependent is ready exactly when each of its hard dependencies
/// has the phase that it asks for, and the blocks stand for its dependencies at
/// the places `found.1`, which are those that have another phase or none.
pub proof fn law_verdict_field_by_field<R: PhaseRegistry>(
    registry: &R,
    dependent: ResourceAddress,
    deps: Seq<LavaArchitectureDependency>,
    seen: Seq<Observation>,
    verdict: ResolutionVerdict,
) -> (found: (Seq<Option<Seq<char>>>, Seq<int>))
    requires
        seen_through(registry, dependent@, views(deps), seen),
        verdict@ == verdict_on(dependent@, seen),
    ensures
        found.0.len() == deps.len(),
        forall|i: int|
            #![trigger found.0[i]]
            0 <= i < deps.len() ==> found.0[i] == seen[i].phase && (deps[i].from@ == dependent@
                ==> registry.reports(deps[i].to@, found.0[i])),
        verdict.ready <==> forall|i: int|
            #![trigger deps[i]]
            0 <= i < deps.len() && deps[i].from@ == dependent@ && deps[i].kind
                == DependencyKind::BlocksOn ==> found.0[i] == Some(deps[i].require_phase@),
        found.1.len() == verdict.blocks@.len(),
        forall|j: int, k: int|
            0 <= j < k < found.1.len() ==> #[trigger] found.1[j] < #[trigger] found.1[k],
        forall|k: int|
            #![trigger found.1[k]]
            0 <= k < found.1.len() ==> {
                let i = found.1[k];
                let block = verdict.blocks@[k];
                &&& 0 <= i < deps.len()
                &&& deps[i].from@ == dependent@
                &&& found.0[i] != Some(deps[i].require_phase@)
                &&& block.upstream@ == deps[i].to@
                &&& block.required_phase@ == deps[i].require_phase@
                &&& phase_text(block.observed_phase) == found.0[i]
                &&& block.kind == deps[i].kind
            },
        forall|i: int|
            #![trigger deps[i]]
            0 <= i < deps.len() && deps[i].from@ == dependent@ && found.0[i] != Some(
                deps[i].require_phase@,
            ) ==> found.1.contains(i),
{
    let all = views(deps);
    let phases = seen.map_values(|o: Observation| o.phase);
    law_views_keep_every_field(deps);
    law_phases_come_from_the_registry(registry, dependent@, all, seen);
    law_ready_means_required_phases(dependent@, seen);
    let at = law_blocks_tell_what_was_seen(dependent@, seen);
    assert forall|i: int| #![trigger deps[i]] 0 <= i < deps.len() implies {
        &&& seen[i].dependency.from == deps[i].from@
        &&& seen[i].dependency.to == deps[i].to@
        &&& seen[i].dependency.kind == deps[i].kind
        &&& seen[i].dependency.require_phase == deps[i].require_phase@
        &&& phases[i] == seen[i].phase
    } by {
        assert(all[i] == seen[i].dependency);
    }
    if verdict.ready {
        assert(verdict@.ready);
    } else {
        assert(!verdict@.ready);
        let i = choose|i: int|
            #![trigger seen[i]]
            0 <= i < seen.len() && seen[i].dependency.from == dependent@ && seen[i].dependency.kind
                == DependencyKind::BlocksOn && seen[i].phase != Some(
                seen[i].dependency.require_phase,
            );
        assert(deps[i].from@ == dependent@);
    }
    assert forall|k: int| #![trigger at[k]] 0 <= k < at.len() implies {
        let i = at[k];
        let block = verdict.blocks@[k];
        &&& 0 <= i < deps.len()
        &&& deps[i].from@ == dependent@
        &&& phases[i] != Some(deps[i].require_phase@)
        &&& block.upstream@ == deps[i].to@
        &&& block.required_phase@ == deps[i].require_phase@
        &&& phase_text(block.observed_phase) == phases[i]
        &&& block.kind == deps[i].kind
    } by {
        assert(verdict@.blocks[k] == verdict.blocks@[k]@);
        assert(seen[at[k]].dependency.from == deps[at[k]].from@);
    }
    (phases, at)
}

/// The listed failed upstreams of a verdict through any registry: those of the
/// dependencies at the places `at`, whose phase was `Failed` and whose own
/// dependent is in the reach of `dependent`, in the order of these places.
pub proof fn law_failed_upstreams_field_by_field<R: PhaseRegistry>(
    registry: &R,
    dependent: ResourceAddress,
    deps: Seq<LavaArchitectureDependency>,
    seen: Seq<Observation>,
    verdict: ResolutionVerdict,
) -> (at: Seq<int>)
    requires
        seen_through(registry, dependent@, views(deps), seen),
        verdict@ == verdict_on(dependent@, seen),
    ensures
        at.len() == verdict.downstream_of_failed@.len(),
        forall|j: int, k: int| 0 <= j < k < at.len() ==> #[trigger] at[j] < #[trigger] at[k],
        forall|k: int|
            #![trigger at[k]]
            0 <= k < at.len() ==> {
                &&& 0 <= at[k] < deps.len()
                &&& seen[at[k]].phase == Some("Failed"@)
                &&& registry.reports(deps[at[k]].to@, Some("Failed"@))
                &&& in_reach(views(deps), dependent@, deps[at[k]].from@)
                &&& verdict.downstream_of_failed@[k]@ == deps[at[k]].to@
            },
        forall|i: int|
            #![trigger deps[i]]
            0 <= i < deps.len() && seen[i].phase == Some("Failed"@) && (deps[i].from@ == dependent@
                || in_reach(views(deps), dependent@, deps[i].from@)) ==> at.contains(i),
{
    let all = views(deps);
    law_views_keep_every_field(deps);
    law_phases_come_from_the_registry(registry, dependent@, all, seen);
    let at = law_failed_upstreams_tell_what_was_seen(dependent@, all, seen);
    assert forall|k: int| #![trigger at[k]] 0 <= k < at.len() implies {
        &&& 0 <= at[k] < deps.len()
        &&& seen[at[k]].phase == Some("Failed"@)
        &&& registry.reports(deps[at[k]].to@, Some("Failed"@))
        &&& in_reach(all, dependent@, deps[at[k]].from@)
        &&& verdict.downstream_of_failed@[k]@ == deps[at[k]].to@
    } by {
        assert(all[at[k]].to == deps[at[k]].to@);
        assert(seen[at[k]].dependency == all[at[k]]);
        assert(verdict@.downstream_of_failed[k] == verdict.downstream_of_failed@[k]@);
    }
    assert forall|i: int|
        #![trigger deps[i]]
        0 <= i < deps.len() && seen[i].phase == Some("Failed"@) && (deps[i].from@ == dependent@
            || in_reach(all, dependent@, deps[i].from@)) implies at.contains(i) by {
        assert(all[i].from == deps[i].from@);
        assert(seen[i].dependency == all[i]);
    }
    at
}

/// Through a registry in memory the dependent is ready exactly when, for each
/// hard dependency that it declares, the text on record under the dotted form of
/// the upstream is the phase that this dependency asks for.
pub proof fn law_ready_in_memory(
    registry: InMemoryPhaseRegistry,
    dependent: ResourceAddress,
    deps: Seq<LavaArchitectureDependency>,
    seen: Seq<Observation>,
    verdict: ResolutionVerdict,
)
    requires
        seen_through(&registry, dependent@, views(deps), seen),
        verdict@ == verdict_on(dependent@, seen),
    ensures
        verdict.ready <==> forall|i: int|
            #![trigger deps[i]]
            0 <= i < deps.len() && deps[i].from@ == dependent@ && deps[i].kind
                == DependencyKind::BlocksOn ==> lookup(
                entries_of(registry.phases),
                deps[i].to@.dotted(),
            ) == Some(deps[i].require_phase@),
        forall|i: int|
            #![trigger seen[i]]
            0 <= i < deps.len() && deps[i].from@ == dependent@ ==> seen[i].phase == lookup(
                entries_of(registry.phases),
                deps[i].to@.dotted(),
            ),
{
    let found = law_verdict_field_by_field(&registry, dependent, deps, seen, verdict);
    let phases = found.0;
    assert forall|i: int|
        #![trigger deps[i]]
        0 <= i < deps.len() && deps[i].from@ == dependent@ implies phases[i] == lookup(
        entries_of(registry.phases),
        deps[i].to@.dotted(),
    ) by {
        assert(registry.reports(deps[i].to@, phases[i]));
    }
    assert forall|i: int|
        #![trigger seen[i]]
        0 <= i < deps.len() && deps[i].from@ == dependent@ implies seen[i].phase == lookup(
        entries_of(registry.phases),
        deps[i].to@.dotted(),
    ) by {
        assert(phases[i] == seen[i].phase);
        assert(deps[i].from@ == dependent@);
    }
}

/// Through a registry in memory exactly those upstreams are listed that have
/// `Failed` on record under their dotted form and that the dependent depends on,
/// directly or through others.
pub proof fn law_failed_in_memory(
    registry: InMemoryPhaseRegistry,
    dependent: ResourceAddress,
    deps: Seq<LavaArchitectureDependency>,
    seen: Seq<Observation>,
    verdict: ResolutionVerdict,
    upstream: AddressView,
)
    requires
        seen_through(&registry, dependent@, views(deps), seen),
        verdict@ == verdict_on(dependent@, seen),
    ensures
        (exists|k: int|
            0 <= k < verdict.downstream_of_failed@.len()
                && (#[trigger] verdict.downstream_of_failed@[k])@ == upstream) <==> (lookup(
            entries_of(registry.phases),
            upstream.dotted(),
        ) == Some("Failed"@) && exists|i: int|
            #![trigger deps[i]]
            0 <= i < deps.len() && deps[i].to@ == upstream && in_reach(
                views(deps),
                dependent@,
                deps[i].from@,
            )),
{
    let all = views(deps);
    let listed = verdict.downstream_of_failed@;
    law_views_keep_every_field(deps);
    law_phases_come_from_the_registry(&registry, dependent@, all, seen);
    let at = law_failed_upstreams_field_by_field(&registry, dependent, deps, seen, verdict);
    if exists|k: int| 0 <= k < listed.len() && (#[trigger] listed[k])@ == upstream {
        let k = choose|k: int| 0 <= k < listed.len() && (#[trigger] listed[k])@ == upstream;
        assert(registry.reports(deps[at[k]].to@, Some("Failed"@)));
        assert(deps[at[k]].to@ == upstream);
    }
    if lookup(entries_of(registry.phases), upstream.dotted()) == Some("Failed"@) && exists|i: int|
        #![trigger deps[i]]
        0 <= i < deps.len() && deps[i].to@ == upstream && in_reach(all, dependent@, deps[i].from@) {
        let i = choose|i: int|
            #![trigger deps[i]]
            0 <= i < deps.len() && deps[i].to@ == upstream && in_reach(
                all,
                dependent@,
                deps[i].from@,
            );
        assert(all[i].to == upstream && all[i].from == deps[i].from@);
        assert(registry.reports(all[i].to, seen[i].phase));
        assert(at.contains(i));
        let k = choose|k: int| 0 <= k < at.len() && at[k] == i;
        assert(listed[k]@ == upstream);
    }
}

/// With a single hard dependency declared, putting a phase of its upstream on
/// record makes the dependent ready exactly when it is the phase asked for, and
/// otherwise there is one block, with the phase put on record in it.
pub proof fn law_recorded_phase_decides(
    before: InMemoryPhaseRegistry,
    registry: InMemoryPhaseRegistry,
    phase: Seq<char>,
    dependency: LavaArchitectureDependency,
    seen: Seq<Observation>,
    verdict: ResolutionVerdict,
)
    requires
        dependency.kind == DependencyKind::BlocksOn,
        registry@ == put(before@, dependency.to@.dotted(), phase),
        seen_through(&registry, dependency.from@, views(seq![dependency]), seen),
        verdict@ == verdict_on(dependency.from@, seen),
    ensures
        verdict.ready <==> phase == dependency.require_phase@,
        verdict.ready ==> verdict.blocks@.len() == 0,
        !verdict.ready ==> {
            &&& verdict.blocks@.len() == 1
            &&& verdict.blocks@[0].upstream@ == dependency.to@
            &&& verdict.blocks@[0].required_phase@ == dependency.require_phase@
            &&& phase_text(verdict.blocks@[0].observed_phase) == Some(phase)
            &&& verdict.blocks@[0].kind == DependencyKind::BlocksOn
        },
        phase == "Failed"@ <==> verdict.downstream_of_failed@.len() > 0,
        phase == "Failed"@ ==> verdict.downstream_of_failed@.len() == 1
            && verdict.downstream_of_failed@[0]@ == dependency.to@,
{
    let deps = seq![dependency];
    let dependent = dependency.from;
    law_lookup_after_put(before@, dependency.to@.dotted(), phase, dependency.to@.dotted());
    law_ready_in_memory(registry, dependent, deps, seen, verdict);
    let found = law_verdict_field_by_field(&registry, dependent, deps, seen, verdict);
    let phases = found.0;
    let at = found.1;
    let listed = law_failed_upstreams_field_by_field(&registry, dependent, deps, seen, verdict);
    assert(deps[0] == dependency);
    assert(phases[0] == seen[0].phase);
    assert(seen[0].phase == Some(phase));
    if at.len() > 0 {
        assert(at[0] == 0);
    }
    if at.len() > 1 {
        assert(at[0] < at[1]);
        assert(0 <= at[1] < deps.len());
    }
    if listed.len() > 0 {
        assert(listed[0] == 0);
    }
    if listed.len() > 1 {
        assert(listed[0] < listed[1]);
        assert(0 <= listed[1] < deps.len());
    }
    if phase == "Failed"@ {
        assert(listed.contains(0));
    }
    if phase != dependency.require_phase@ {
        assert(at.contains(0));
    }
}

/// Taking in one dependency changes a verdict by what it says of the dependent:
/// a block for an own one in another phase than asked for, which ends readiness
/// if it is hard, and an upstream listed for one that was seen as `Failed`.
pub proof fn law_record_by_fields(verdict: VerdictView, dependent: AddressView, o: Observation)
    ensures
        verdict.record(dependent, o).ready <==> verdict.ready && (o.dependency.from != dependent
            || o.dependency.kind == DependencyKind::Influences || o.phase == Some(
            o.dependency.require_phase,
        )),
        o.dependency.from == dependent && o.phase != Some(o.dependency.require_phase)
            ==> verdict.record(dependent, o).blocks == verdict.blocks.push(
            (BlockReasonView {
                upstream: o.dependency.to,
                required_phase: o.dependency.require_phase,
                observed_phase: o.phase,
                kind: o.dependency.kind,
            }),
        ),
        o.dependency.from != dependent || o.phase == Some(o.dependency.require_phase)
            ==> verdict.record(dependent, o).blocks == verdict.blocks,
        o.phase == Some("Failed"@) ==> verdict.record(dependent, o).downstream_of_failed
            == verdict.downstream_of_failed.push(o.dependency.to),
        o.phase != Some("Failed"@) ==> verdict.record(dependent, o).downstream_of_failed
            == verdict.downstream_of_failed,
{
}

/// On record in memory, each declared dependency is seen with the text under the
/// dotted form of its upstream.
pub proof fn law_seen_in_memory_by_fields(
    registry: InMemoryPhaseRegistry,
    deps: Seq<DependencyView>,
)
    ensures
        seen_in_memory(registry, deps).len() == deps.len(),
        forall|i: int|
            #![trigger seen_in_memory(registry, deps)[i]]
            0 <= i < deps.len() ==> {
                &&& seen_in_memory(registry, deps)[i].dependency == deps[i]
                &&& seen_in_memory(registry, deps)[i].phase == lookup(
                    entries_of(registry.phases),
                    deps[i].to.dotted(),
                )
            },
{
}

/// A verdict holds as many blocks and listed upstreams as the lists that it
/// stands for, with the same fields in the same places.
pub proof fn law_verdict_view_by_fields(verdict: ResolutionVerdict)
    ensures
        verdict@.ready == verdict.ready,
        verdict@.blocks.len() == verdict.blocks@.len(),
        forall|k: int|
            #![trigger verdict@.blocks[k]]
            0 <= k < verdict.blocks@.len() ==> {
                &&& verdict@.blocks[k].upstream == verdict.blocks@[k].upstream@
                &&& verdict@.blocks[k].required_phase == verdict.blocks@[k].required_phase@
                &&& verdict@.blocks[k].observed_phase == phase_text(
                    verdict.blocks@[k].observed_phase,
                )
                &&& verdict@.blocks[k].kind == verdict.blocks@[k].kind
            },
        verdict@.downstream_of_failed.len() == verdict.downstream_of_failed@.len(),
        forall|k: int|
            #![trigger verdict@.downstream_of_failed[k]]
            0 <= k < verdict.downstream_of_failed@.len() ==> verdict@.downstream_of_failed[k]
                == verdict.downstream_of_failed@[k]@,
{
}

} // verus!
