//! Which dependencies a dependent has a share in, its own ones and those of
//! the upstreams that it depends on.

use crate::address::{AddressView, ResourceAddress};
use crate::dependency::{views, DependencyView, LavaArchitectureDependency};
use crate::search::lemma_distinct_numbers_fit;
use vstd::prelude::*;

verus! {

/// `dependent` declares a dependency on `upstream`.
pub open spec fn declares(
    deps: Seq<DependencyView>,
    dependent: AddressView,
    upstream: AddressView,
) -> bool {
    exists|i: int|
        #![trigger deps[i]]
        0 <= i < deps.len() && deps[i].from == dependent && deps[i].to == upstream
}

/// Each address of `route` declares a dependency on the next one.
pub open spec fn is_route(deps: Seq<DependencyView>, route: Seq<AddressView>) -> bool {
    &&& route.len() > 0
    &&& forall|i: int|
        #![trigger route[i]]
        0 <= i && i + 1 < route.len() ==> declares(deps, route[i], route[i + 1])
}

/// `address` is `dependent` itself or an upstream that it depends on, directly or through others.
pub open spec fn in_reach(
    deps: Seq<DependencyView>,
    dependent: AddressView,
    address: AddressView,
) -> bool {
    exists|route: Seq<AddressView>|
        #[trigger] is_route(deps, route) && route[0] == dependent && route.last() == address
}

/// Every address is in its own reach.
pub proof fn law_reach_starts_at_itself(deps: Seq<DependencyView>, dependent: AddressView)
    ensures
        in_reach(deps, dependent, dependent),
{
    assert(is_route(deps, seq![dependent]));
}

/// The upstreams of what is in reach are in reach.
pub proof fn law_reach_goes_on(
    deps: Seq<DependencyView>,
    dependent: AddressView,
    address: AddressView,
    upstream: AddressView,
)
    requires
        in_reach(deps, dependent, address),
        declares(deps, address, upstream),
    ensures
        in_reach(deps, dependent, upstream),
{
    let route = choose|route: Seq<AddressView>|
        #[trigger] is_route(deps, route) && route[0] == dependent && route.last() == address;
    let longer = route.push(upstream);
    assert forall|i: int| #![trigger longer[i]] 0 <= i && i + 1 < longer.len() implies declares(
        deps,
        longer[i],
        longer[i + 1],
    ) by {
        assert(longer[i] == route[i]);
        if i + 1 < route.len() {
            assert(longer[i + 1] == route[i + 1]);
        }
    }
    assert(is_route(deps, longer));
}

/// The marks are set for the dependencies of `dependent` and closed under going upstream.
spec fn marks_closed(deps: Seq<DependencyView>, dependent: AddressView, marks: Seq<bool>) -> bool {
    &&& marks.len() == deps.len()
    &&& forall|i: int|
        #![trigger marks[i]]
        0 <= i < deps.len() && deps[i].from == dependent ==> marks[i]
    &&& forall|j: int, i: int|
        #![trigger marks[j], marks[i]]
        0 <= j < deps.len() && 0 <= i < deps.len() && marks[j] && deps[i].from == deps[j].to
            ==> marks[i]
}

proof fn lemma_closed_marks_reach_far(
    deps: Seq<DependencyView>,
    dependent: AddressView,
    marks: Seq<bool>,
    route: Seq<AddressView>,
    i: int,
)
    requires
        marks_closed(deps, dependent, marks),
        is_route(deps, route),
        route[0] == dependent,
        0 <= i < deps.len(),
        route.last() == deps[i].from,
    ensures
        marks[i],
    decreases route.len(),
{
    if route.len() > 1 {
        let shorter = route.drop_last();
        let at = route.len() - 2;
        assert(declares(deps, route[at], route[at + 1]));
        let k = choose|k: int|
            #![trigger deps[k]]
            0 <= k < deps.len() && deps[k].from == route[at] && deps[k].to == route[at + 1];
        assert forall|i: int| #![trigger shorter[i]] 0 <= i && i + 1 < shorter.len() implies declares(
            deps,
            shorter[i],
            shorter[i + 1],
        ) by {
            assert(shorter[i] == route[i]);
        }
        lemma_closed_marks_reach_far(deps, dependent, marks, shorter, k);
        assert(marks[k]);
        assert(marks[i]);
    }
}

/// For each dependency, whether its own dependent is in the reach of `dependent`.
pub(crate) fn shared_dependencies(
    dependent: &ResourceAddress,
    deps: &[LavaArchitectureDependency],
) -> (marks: Vec<bool>)
    ensures
        marks@.len() == deps@.len(),
        forall|i: int|
            #![trigger marks@[i]]
            0 <= i < deps@.len() ==> marks@[i] == in_reach(
                views(deps@),
                dependent@,
                views(deps@)[i].from,
            ),
{
    let ghost all = views(deps@);
    let mut marks: Vec<bool> = Vec::new();
    let mut queue: Vec<usize> = Vec::new();
    let mut i: usize = 0;
    while i < deps.len()
        invariant
            i <= deps@.len(),
            all == views(deps@),
            marks@.len() == i,
            queue@.no_duplicates(),
            forall|k: int| 0 <= k < queue@.len() ==> #[trigger] queue@[k] < i,
            forall|k: int|
                #![trigger marks@[k]]
                0 <= k < i ==> marks@[k] == (all[k].from == dependent@),
            forall|k: int|
                #![trigger marks@[k]]
                0 <= k < i ==> marks@[k] == queue@.contains(k as usize),
        decreases deps@.len() - i,
    {
        let own: bool = deps[i].from == *dependent;
        marks.push(own);
        let ghost before = queue@;
        if own {
            queue.push(i);
        }
        proof {
            assert(all[i as int] == deps@[i as int]@);
            assert forall|k: int| #![trigger marks@[k]] 0 <= k < i + 1 implies marks@[k]
                == queue@.contains(k as usize) by {
                if k < i {
                    lemma_push_keeps_members(before, i, k as usize);
                } else if own {
                    assert(queue@[before.len() as int] == i);
                }
            }
        }
        i = i + 1;
    }
    proof {
        assert forall|k: int| #![trigger marks@[k]] 0 <= k < marks@.len() && marks@[k] implies in_reach(
            all,
            dependent@,
            all[k].from,
        ) by {
            law_reach_starts_at_itself(all, dependent@);
        }
        lemma_distinct_numbers_fit(queue@, deps@.len());
    }
    let mut done: usize = 0;
    while done < queue.len()
        invariant
            all == views(deps@),
            marks@.len() == deps@.len(),
            done <= queue@.len() <= deps@.len(),
            queue@.no_duplicates(),
            forall|k: int| 0 <= k < queue@.len() ==> #[trigger] queue@[k] < deps@.len(),
            forall|k: int|
                #![trigger marks@[k]]
                0 <= k < deps@.len() ==> marks@[k] == queue@.contains(k as usize),
            forall|k: int|
                #![trigger marks@[k]]
                0 <= k < deps@.len() && all[k].from == dependent@ ==> marks@[k],
            forall|k: int|
                #![trigger marks@[k]]
                0 <= k < deps@.len() && marks@[k] ==> in_reach(all, dependent@, all[k].from),
            forall|q: int, k: int|
                #![trigger queue@[q], marks@[k]]
                0 <= q < done && 0 <= k < deps@.len() && all[k].from == all[queue@[q] as int].to
                    ==> marks@[k],
        decreases deps@.len() - done,
    {
        let at: usize = queue[done];
        let ghost outer = queue@;
        let mut i: usize = 0;
        proof {
            assert(queue@.contains(at));
            assert(marks@[at as int]);
        }
        while i < deps.len()
            invariant
                i <= deps@.len(),
                all == views(deps@),
                at < deps@.len(),
                done < outer.len() <= queue@.len(),
                outer.is_prefix_of(queue@),
                outer[done as int] == at,
                in_reach(all, dependent@, all[at as int].from),
                marks@.len() == deps@.len(),
                queue@.len() <= deps@.len(),
                queue@.no_duplicates(),
                forall|k: int| 0 <= k < queue@.len() ==> #[trigger] queue@[k] < deps@.len(),
                forall|k: int|
                    #![trigger marks@[k]]
                    0 <= k < deps@.len() ==> marks@[k] == queue@.contains(k as usize),
                forall|k: int|
                    #![trigger marks@[k]]
                    0 <= k < deps@.len() && all[k].from == dependent@ ==> marks@[k],
                forall|k: int|
                    #![trigger marks@[k]]
                    0 <= k < deps@.len() && marks@[k] ==> in_reach(all, dependent@, all[k].from),
                forall|q: int, k: int|
                    #![trigger outer[q], marks@[k]]
                    0 <= q < done && 0 <= k < deps@.len() && all[k].from == all[outer[q] as int].to
                        ==> marks@[k],
                forall|k: int|
                    #![trigger marks@[k]]
                    0 <= k < i && all[k].from == all[at as int].to ==> marks@[k],
            decreases deps@.len() - i,
        {
            if !marks[i] && deps[i].from == deps[at].to {
                let ghost before = queue@;
                let ghost unmarked = marks@;
                marks.set(i, true);
                queue.push(i);
                proof {
                    assert(all[i as int] == deps@[i as int]@);
                    assert(all[at as int] == deps@[at as int]@);
                    assert(unmarked[i as int] == before.contains(i));
                    assert(declares(all, all[at as int].from, all[at as int].to));
                    law_reach_goes_on(all, dependent@, all[at as int].from, all[at as int].to);
                    assert forall|k: int| #![trigger marks@[k]] 0 <= k < deps@.len() implies marks@[k]
                        == queue@.contains(k as usize) by {
                        if k == i {
                            assert(queue@[before.len() as int] == i);
                        } else {
                            lemma_push_keeps_members(before, i, k as usize);
                            assert(unmarked[k] == before.contains(k as usize));
                        }
                    }
                    assert forall|k: int| #![trigger marks@[k]] 0 <= k < deps@.len() && marks@[k] implies in_reach(
                        all,
                        dependent@,
                        all[k].from,
                    ) by {
                        if k != i {
                            assert(unmarked[k]);
                        }
                    }
                    assert forall|q: int, k: int|
                        #![trigger outer[q], marks@[k]]
                        0 <= q < done && 0 <= k < deps@.len() && all[k].from
                            == all[outer[q] as int].to implies marks@[k] by {
                        assert(k != i ==> unmarked[k]);
                    }
                    assert forall|k: int| #![trigger marks@[k]] 0 <= k < deps@.len() && all[k].from
                        == dependent@ implies marks@[k] by {
                        assert(unmarked[k] || k == i);
                    }
                    assert forall|k: int| #![trigger marks@[k]] 0 <= k < i && all[k].from
                        == all[at as int].to implies marks@[k] by {
                        assert(unmarked[k]);
                    }
                    lemma_distinct_numbers_fit(queue@, deps@.len());
                }
            }
            proof {
                assert(all[i as int] == deps@[i as int]@);
                assert(all[at as int] == deps@[at as int]@);
            }
            i = i + 1;
        }
        proof {
            assert forall|q: int, k: int|
                #![trigger queue@[q], marks@[k]]
                0 <= q < done + 1 && 0 <= k < deps@.len() && all[k].from
                    == all[queue@[q] as int].to implies marks@[k] by {
                assert(queue@[q] == outer[q]);
            }
        }
        done = done + 1;
    }
    proof {
        assert forall|j: int, i: int|
            #![trigger marks@[j], marks@[i]]
            0 <= j < all.len() && 0 <= i < all.len() && marks@[j] && all[i].from
                == all[j].to implies marks@[i] by {
            let q = choose|q: int| 0 <= q < queue@.len() && queue@[q] == j as usize;
            assert(queue@[q] == j);
        }
        assert(marks_closed(all, dependent@, marks@));
        assert forall|i: int| #![trigger marks@[i]] 0 <= i < deps@.len() implies marks@[i] == in_reach(
            all,
            dependent@,
            all[i].from,
        ) by {
            if in_reach(all, dependent@, all[i].from) {
                let route = choose|route: Seq<AddressView>|
                    #[trigger] is_route(all, route) && route[0] == dependent@ && route.last()
                        == all[i].from;
                lemma_closed_marks_reach_far(all, dependent@, marks@, route, i);
            }
        }
    }
    marks
}

proof fn lemma_push_keeps_members(numbers: Seq<usize>, added: usize, other: usize)
    requires
        other != added,
    ensures
        numbers.push(added).contains(other) == numbers.contains(other),
{
    let more = numbers.push(added);
    if numbers.contains(other) {
        let k = choose|k: int| 0 <= k < numbers.len() && numbers[k] == other;
        assert(more[k] == other);
    }
    if more.contains(other) {
        let k = choose|k: int| 0 <= k < more.len() && more[k] == other;
        assert(numbers[k] == other);
    }
}

/// A dependency whose dependent is in reach brings its upstream into reach,
/// whatever its kind and the phase that it asks for.
pub proof fn law_dependency_extends_reach(
    deps: Seq<DependencyView>,
    dependent: AddressView,
    i: int,
)
    requires
        0 <= i < deps.len(),
        in_reach(deps, dependent, deps[i].from),
    ensures
        in_reach(deps, dependent, deps[i].to),
{
    assert(declares(deps, deps[i].from, deps[i].to));
    law_reach_goes_on(deps, dependent, deps[i].from, deps[i].to);
}

/// Nothing else is in reach: what holds of the dependent, and of the upstream of
/// each dependency whose dependent it holds of, holds of all that is in reach.
pub proof fn law_reach_is_no_larger(
    deps: Seq<DependencyView>,
    dependent: AddressView,
    address: AddressView,
    holds: spec_fn(AddressView) -> bool,
)
    requires
        holds(dependent),
        forall|i: int|
            #![trigger deps[i]]
            0 <= i < deps.len() && holds(deps[i].from) ==> holds(deps[i].to),
        in_reach(deps, dependent, address),
    ensures
        holds(address),
{
    let route = choose|route: Seq<AddressView>|
        #[trigger] is_route(deps, route) && route[0] == dependent && route.last() == address;
    lemma_holds_along(deps, route, holds, route.len() - 1);
}

proof fn lemma_holds_along(
    deps: Seq<DependencyView>,
    route: Seq<AddressView>,
    holds: spec_fn(AddressView) -> bool,
    n: int,
)
    requires
        is_route(deps, route),
        holds(route[0]),
        forall|i: int|
            #![trigger deps[i]]
            0 <= i < deps.len() && holds(deps[i].from) ==> holds(deps[i].to),
        0 <= n < route.len(),
    ensures
        holds(route[n]),
    decreases n,
{
    if n > 0 {
        lemma_holds_along(deps, route, holds, n - 1);
        assert(declares(deps, route[n - 1], route[n - 1 + 1]));
    }
}

/// An address without dependencies of its own has only itself in reach.
pub proof fn law_reach_of_an_independent(
    deps: Seq<DependencyView>,
    dependent: AddressView,
    address: AddressView,
)
    requires
        forall|i: int| #![trigger deps[i]] 0 <= i < deps.len() ==> deps[i].from != dependent,
    ensures
        in_reach(deps, dependent, address) <==> address == dependent,
{
    law_reach_starts_at_itself(deps, dependent);
    if in_reach(deps, dependent, address) {
        law_reach_is_no_larger(deps, dependent, address, |a: AddressView| a == dependent);
    }
}

} // verus!
