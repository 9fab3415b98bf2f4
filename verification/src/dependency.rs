//! A declared edge: the dependent, its upstream, and how the one waits for the other.

use crate::address::{AddressView, ResourceAddress};
use vstd::prelude::*;

verus! {

/// How a dependency acts on the dependent.
#[derive(Clone, Copy, Debug, PartialEq, Eq, Structural)]
pub enum DependencyKind {
    /// Hard dependency. The dependent's reconcile loop halts until the
    /// upstream reaches `require_phase`.
    BlocksOn,
    /// Soft dependency. The dependent proceeds; an alert is raised while the
    /// upstream is not in `require_phase`.
    Influences,
}

/// What a [`LavaArchitectureDependency`] stands for.
pub struct DependencyView {
    pub from: AddressView,
    pub to: AddressView,
    pub kind: DependencyKind,
    pub require_phase: Seq<char>,
}

/// An edge of the dependency graph between architectures.
#[derive(Debug, PartialEq, Eq)]
pub struct LavaArchitectureDependency {
    /// The dependent.
    pub from: ResourceAddress,
    /// The upstream.
    pub to: ResourceAddress,
    pub kind: DependencyKind,
    /// The phase that the upstream must be in.
    pub require_phase: String,
}

impl View for LavaArchitectureDependency {
    type V = DependencyView;

    open spec fn view(&self) -> DependencyView {
        DependencyView {
            from: self.from@,
            to: self.to@,
            kind: self.kind,
            require_phase: self.require_phase@,
        }
    }
}

impl Clone for LavaArchitectureDependency {
    fn clone(&self) -> (copy: Self)
        ensures
            copy == *self,
    {
        LavaArchitectureDependency {
            from: self.from.clone(),
            to: self.to.clone(),
            kind: self.kind,
            require_phase: self.require_phase.clone(),
        }
    }
}

/// What a list of dependencies stands for.
pub open spec fn views(deps: Seq<LavaArchitectureDependency>) -> Seq<DependencyView> {
    deps.map_values(|dep: LavaArchitectureDependency| dep@)
}

/// The phase that a dependency asks for when it names none.
pub fn default_require_phase() -> (phase: String)
    ensures
        phase@ == "Applied"@,
{
    "Applied".to_string()
}

/// A list stands for its dependencies one by one, each with all that it declares.
pub proof fn law_views_keep_every_field(deps: Seq<LavaArchitectureDependency>)
    ensures
        views(deps).len() == deps.len(),
        forall|i: int|
            #![trigger views(deps)[i]]
            0 <= i < deps.len() ==> {
                &&& views(deps)[i].from == deps[i].from@
                &&& views(deps)[i].to == deps[i].to@
                &&& views(deps)[i].kind == deps[i].kind
                &&& views(deps)[i].require_phase == deps[i].require_phase@
            },
{
}

} // verus!
