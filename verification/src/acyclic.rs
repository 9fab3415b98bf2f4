//! Whether the declared dependencies form a DAG.
//!
//! The graph has the dotted forms of the addresses as its nodes and an edge
//! from each dependent to each of its upstreams, hard or soft.

use crate::address::AddressView;
use crate::dependency::{views, DependencyView, LavaArchitectureDependency};
use crate::reach::{declares, in_reach, is_route};
use crate::search::{all_followers_in, closed_graph, follows, is_chain, is_ordered, Search};
use vstd::hash_map::StringHashMap;
use vstd::prelude::*;

verus! {

/// Why a set of dependencies was refused.
#[derive(Debug)]
pub enum DependencyError {
    /// The dependencies run in a circle: the dotted addresses on it, each one
    /// depending on the next and the last on the first, with ` -> ` between them.
    Cycle(String),
}

/// Some dependency leads from the address written `dependent` to the one written `upstream`.
pub open spec fn edge(
    deps: Seq<DependencyView>,
    dependent: Seq<char>,
    upstream: Seq<char>,
) -> bool {
    exists|i: int|
        #![trigger deps[i]]
        0 <= i < deps.len() && deps[i].from.dotted() == dependent && deps[i].to.dotted()
            == upstream
}

/// The address after position `i` on a circular path.
pub open spec fn next_on(path: Seq<Seq<char>>, i: int) -> Seq<char> {
    if i + 1 < path.len() {
        path[i + 1]
    } else {
        path[0]
    }
}

/// Each address of `path` depends on the next one, and the last one on the first.
pub open spec fn is_cycle(deps: Seq<DependencyView>, path: Seq<Seq<char>>) -> bool {
    &&& path.len() > 0
    &&& forall|i: int|
        #![trigger path[i]]
        0 <= i < path.len() ==> edge(deps, path[i], next_on(path, i))
}

/// No chain of dependencies leads from an address back to itself.
pub open spec fn acyclic(deps: Seq<DependencyView>) -> bool {
    forall|path: Seq<Seq<char>>| !#[trigger] is_cycle(deps, path)
}

/// Under `rank` every upstream comes before its dependent.
pub open spec fn upstream_first(
    deps: Seq<DependencyView>,
    rank: spec_fn(Seq<char>) -> int,
) -> bool {
    forall|i: int|
        #![trigger deps[i]]
        0 <= i < deps.len() ==> rank(deps[i].to.dotted()) < rank(deps[i].from.dotted())
}

/// There is an order in which every upstream comes before its dependent.
pub open spec fn can_be_ordered(deps: Seq<DependencyView>) -> bool {
    exists|rank: spec_fn(Seq<char>) -> int| #[trigger] upstream_first(deps, rank)
}

/// The addresses of `path` with ` -> ` between them.
pub open spec fn path_text(path: Seq<Seq<char>>) -> Seq<char>
    decreases path.len(),
{
    if path.len() == 0 {
        Seq::empty()
    } else if path.len() == 1 {
        path[0]
    } else {
        path_text(path.drop_last()) + " -> "@ + path.last()
    }
}

/// The graph of dependencies, its nodes numbered in the order in which they come up.
struct Graph {
    names: Vec<String>,
    numbers: StringHashMap<usize>,
    adj: Vec<Vec<usize>>,
}

impl Graph {
    spec fn name(self, u: usize) -> Seq<char> {
        self.names@[u as int]@
    }

    spec fn wf(self) -> bool {
        &&& self.names@.len() == self.adj@.len()
        &&& closed_graph(self.adj@)
        &&& forall|u: usize|
            u < self.names@.len() ==> self.numbers@.contains_key(#[trigger] self.name(u))
                && self.numbers@[self.name(u)] == u
        &&& forall|text: Seq<char>|
            #![trigger self.numbers@.contains_key(text)]
            self.numbers@.contains_key(text) ==> self.numbers@[text] < self.names@.len()
                && self.name(self.numbers@[text]) == text
    }

    /// The edge of a dependency is in the graph.
    spec fn has_edge_of(self, dep: DependencyView) -> bool {
        &&& self.numbers@.contains_key(dep.from.dotted())
        &&& self.numbers@.contains_key(dep.to.dotted())
        &&& follows(
            self.adj@,
            self.numbers@[dep.from.dotted()],
            self.numbers@[dep.to.dotted()],
        )
    }

    /// The graph has the edges of `deps` and no others.
    spec fn represents(self, deps: Seq<DependencyView>) -> bool {
        &&& self.wf()
        &&& forall|u: usize, v: usize| #[trigger]
            follows(self.adj@, u, v) ==> edge(deps, self.name(u), self.name(v))
        &&& forall|i: int| 0 <= i < deps.len() ==> self.has_edge_of(#[trigger] deps[i])
    }

    fn new() -> (graph: Self)
        ensures
            graph.represents(Seq::empty()),
    {
        Graph { names: Vec::new(), numbers: StringHashMap::new(), adj: Vec::new() }
    }

    /// The number of the node with this name, which is added if it is new.
    fn number_of(&mut self, text: String) -> (number: usize)
        requires
            old(self).wf(),
        ensures
            final(self).wf(),
            number < final(self).names@.len(),
            final(self).name(number) == text@,
            final(self).numbers@.contains_key(text@),
            final(self).numbers@[text@] == number,
            old(self).names@.is_prefix_of(final(self).names@),
            forall|known: Seq<char>|
                #![trigger final(self).numbers@[known]]
                old(self).numbers@.contains_key(known) ==> final(self).numbers@.contains_key(known)
                    && final(self).numbers@[known] == old(self).numbers@[known],
            forall|u: usize, v: usize|
                #![trigger follows(final(self).adj@, u, v)]
                follows(final(self).adj@, u, v) <==> follows(old(self).adj@, u, v),
    {
        let known: Option<&usize> = self.numbers.get(text.as_str());
        if let Some(number) = known {
            return *number;
        }
        let ghost before = *self;
        let number: usize = self.names.len();
        self.numbers.insert(text.clone(), number);
        self.names.push(text);
        self.adj.push(Vec::new());
        proof {
            assert forall|u: usize| u < self.names@.len() implies self.numbers@.contains_key(
                #[trigger] self.name(u),
            ) && self.numbers@[self.name(u)] == u by {
                if u != number {
                    assert(self.name(u) == before.name(u));
                    assert(before.numbers@.contains_key(before.name(u)));
                }
            }
            assert forall|known: Seq<char>|
                #![trigger self.numbers@.contains_key(known)]
                self.numbers@.contains_key(known) implies self.numbers@[known]
                < self.names@.len() && self.name(self.numbers@[known]) == known by {
                if known != text@ {
                    assert(before.numbers@.contains_key(known));
                    assert(self.name(self.numbers@[known]) == before.name(before.numbers@[known]));
                }
            }
        }
        number
    }

    /// Adds the edge of a dependency.
    fn connect(&mut self, dep: &LavaArchitectureDependency, Ghost(deps): Ghost<Seq<DependencyView>>)
        requires
            old(self).represents(deps),
        ensures
            final(self).represents(deps.push(dep@)),
    {
        let ghost before = *self;
        let from: usize = self.number_of(dep.from.dotted());
        let ghost halfway = *self;
        let to: usize = self.number_of(dep.to.dotted());
        let ghost numbered = *self;
        self.adj[from].push(to);
        proof {
            let more = deps.push(dep@);
            assert(self.numbers@ == numbered.numbers@);
            assert(halfway.numbers@[dep@.from.dotted()] == from);
            assert(numbered.numbers@[dep@.from.dotted()] == from);
            assert(self.adj@[from as int]@ == numbered.adj@[from as int]@.push(to));
            assert(closed_graph(self.adj@)) by {
                assert forall|u: int, k: int|
                    0 <= u < self.adj@.len() && 0 <= k < self.adj@[u]@.len() implies #[trigger] self.adj@[u]@[k]
                    < self.adj@.len() by {
                    if u == from && k == numbered.adj@[u]@.len() {
                    } else {
                        assert(self.adj@[u]@[k] == numbered.adj@[u]@[k]);
                    }
                }
            }
            assert forall|u: usize| u < self.names@.len() implies self.numbers@.contains_key(
                #[trigger] self.name(u),
            ) && self.numbers@[self.name(u)] == u by {
                assert(self.name(u) == numbered.name(u));
            }
            assert forall|known: Seq<char>|
                #![trigger self.numbers@.contains_key(known)]
                self.numbers@.contains_key(known) implies self.numbers@[known]
                < self.names@.len() && self.name(self.numbers@[known]) == known by {
                assert(numbered.numbers@.contains_key(known));
                assert(self.name(self.numbers@[known]) == numbered.name(numbered.numbers@[known]));
            }
            assert(self.wf());
            assert(more[deps.len() as int] == dep@);
            assert forall|u: usize, v: usize| #[trigger]
                follows(self.adj@, u, v) implies edge(more, self.name(u), self.name(v)) by {
                if numbered.adj@[u as int]@.contains(v) {
                    assert(follows(numbered.adj@, u, v));
                    assert(follows(halfway.adj@, u, v));
                    assert(follows(before.adj@, u, v));
                    lemma_edge_is_closed(before.adj@, u, v);
                    assert(edge(deps, before.name(u), before.name(v)));
                    let i = choose|i: int|
                        #![trigger deps[i]]
                        0 <= i < deps.len() && deps[i].from.dotted() == before.name(u)
                            && deps[i].to.dotted() == before.name(v);
                    assert(more[i] == deps[i]);
                    assert(halfway.names@[u as int] == before.names@[u as int]);
                    assert(halfway.names@[v as int] == before.names@[v as int]);
                } else {
                    let k = choose|k: int| 0 <= k < self.adj@[u as int]@.len() && self.adj@[u as int]@[k] == v;
                    assert(u == from && v == to);
                    assert(halfway.names@[from as int] == numbered.names@[from as int]);
                }
            }
            assert forall|i: int| 0 <= i < more.len() implies self.has_edge_of(
                #[trigger] more[i],
            ) by {
                if i < deps.len() {
                    assert(before.has_edge_of(deps[i]));
                    let a = deps[i].from.dotted();
                    let b = deps[i].to.dotted();
                    assert(halfway.numbers@[a] == before.numbers@[a]);
                    assert(halfway.numbers@[b] == before.numbers@[b]);
                    assert(numbered.numbers@[a] == before.numbers@[a]);
                    assert(numbered.numbers@[b] == before.numbers@[b]);
                    let u = before.numbers@[a];
                    let v = before.numbers@[b];
                    assert(follows(halfway.adj@, u, v));
                    assert(follows(numbered.adj@, u, v));
                    let k = choose|k: int| 0 <= k < numbered.adj@[u as int]@.len() && numbered.adj@[u as int]@[k] == v;
                    assert(self.adj@[u as int]@[k] == v);
                } else {
                    let k = numbered.adj@[from as int]@.len() as int;
                    assert(self.adj@[from as int]@[k] == to);
                }
            }
        }
    }
}

proof fn lemma_edge_is_closed(adj: Seq<Vec<usize>>, u: usize, v: usize)
    requires
        closed_graph(adj),
        follows(adj, u, v),
    ensures
        u < adj.len(),
        v < adj.len(),
{
    let k = choose|k: int| 0 <= k < adj[u as int]@.len() && adj[u as int]@[k] == v;
    assert(adj[u as int]@[k] < adj.len());
}

/// Along the first `n` steps of a cycle the rank only goes down.
proof fn lemma_rank_goes_down(
    deps: Seq<DependencyView>,
    rank: spec_fn(Seq<char>) -> int,
    path: Seq<Seq<char>>,
    n: int,
)
    requires
        upstream_first(deps, rank),
        is_cycle(deps, path),
        0 < n < path.len(),
    ensures
        rank(path[n]) < rank(path[0]),
    decreases n,
{
    assert(edge(deps, path[n - 1], next_on(path, n - 1)));
    if n > 1 {
        lemma_rank_goes_down(deps, rank, path, n - 1);
    }
}

/// Dependencies that can be ordered, upstreams first, have no cycle.
pub proof fn law_ordered_dependencies_are_acyclic(deps: Seq<DependencyView>)
    requires
        can_be_ordered(deps),
    ensures
        acyclic(deps),
{
    let rank = choose|rank: spec_fn(Seq<char>) -> int| #[trigger] upstream_first(deps, rank);
    assert forall|path: Seq<Seq<char>>| !#[trigger] is_cycle(deps, path) by {
        if is_cycle(deps, path) {
            let last = path.len() - 1;
            assert(edge(deps, path[last], next_on(path, last)));
            if last > 0 {
                lemma_rank_goes_down(deps, rank, path, last);
            }
        }
    }
}

/// Only the pairs of dependent and upstream decide: dependencies that add no
/// new pair to those of an acyclic set are acyclic, whatever their order, their
/// number, their kinds and the phases that they ask for.
pub proof fn law_edges_decide(deps: Seq<DependencyView>, others: Seq<DependencyView>)
    requires
        acyclic(deps),
        forall|i: int|
            #![trigger others[i]]
            0 <= i < others.len() ==> edge(
                deps,
                others[i].from.dotted(),
                others[i].to.dotted(),
            ),
    ensures
        acyclic(others),
{
    assert forall|path: Seq<Seq<char>>| !#[trigger] is_cycle(others, path) by {
        if is_cycle(others, path) {
            assert forall|i: int| #![trigger path[i]] 0 <= i < path.len() implies edge(
                deps,
                path[i],
                next_on(path, i),
            ) by {
                assert(edge(others, path[i], next_on(path, i)));
            }
            assert(is_cycle(deps, path));
        }
    }
}

/// Each address of `walk` depends on the next one.
spec fn is_walk(deps: Seq<DependencyView>, walk: Seq<Seq<char>>) -> bool {
    &&& walk.len() > 0
    &&& forall|i: int|
        #![trigger walk[i]]
        0 <= i && i + 1 < walk.len() ==> edge(deps, walk[i], walk[i + 1])
}

/// A walk leads from `start` to `end`.
spec fn leads_to(deps: Seq<DependencyView>, start: Seq<char>, end: Seq<char>) -> bool {
    exists|walk: Seq<Seq<char>>|
        #[trigger] is_walk(deps, walk) && walk[0] == start && walk.last() == end
}

proof fn lemma_walk_on(
    deps: Seq<DependencyView>,
    start: Seq<char>,
    middle: Seq<char>,
    end: Seq<char>,
)
    requires
        leads_to(deps, start, middle),
        edge(deps, middle, end),
    ensures
        leads_to(deps, start, end),
{
    let walk = choose|walk: Seq<Seq<char>>|
        #[trigger] is_walk(deps, walk) && walk[0] == start && walk.last() == middle;
    let longer = walk.push(end);
    assert forall|i: int| #![trigger longer[i]] 0 <= i && i + 1 < longer.len() implies edge(
        deps,
        longer[i],
        longer[i + 1],
    ) by {
        assert(longer[i] == walk[i]);
        if i + 1 < walk.len() {
            assert(longer[i + 1] == walk[i + 1]);
        }
    }
    assert(is_walk(deps, longer));
}

/// Dependencies without a cycle can be ordered, upstreams first.
pub proof fn law_acyclic_dependencies_can_be_ordered(deps: Seq<DependencyView>)
    requires
        acyclic(deps),
    ensures
        can_be_ordered(deps),
    decreases deps.len(),
{
    if deps.len() == 0 {
        assert(upstream_first(deps, |text: Seq<char>| 0int));
    } else {
        let fewer = deps.drop_last();
        let a = deps.last().from.dotted();
        let b = deps.last().to.dotted();
        assert(deps[deps.len() - 1] == deps.last());
        assert forall|i: int| #![trigger fewer[i]] 0 <= i < fewer.len() implies edge(
            deps,
            fewer[i].from.dotted(),
            fewer[i].to.dotted(),
        ) by {
            assert(deps[i] == fewer[i]);
        }
        law_edges_decide(deps, fewer);
        law_acyclic_dependencies_can_be_ordered(fewer);
        let rank = choose|rank: spec_fn(Seq<char>) -> int| #[trigger] upstream_first(fewer, rank);
        if leads_to(fewer, b, a) {
            let walk = choose|walk: Seq<Seq<char>>|
                #[trigger] is_walk(fewer, walk) && walk[0] == b && walk.last() == a;
            assert forall|i: int| #![trigger walk[i]] 0 <= i < walk.len() implies edge(
                deps,
                walk[i],
                next_on(walk, i),
            ) by {
                if i + 1 < walk.len() {
                    assert(edge(fewer, walk[i], walk[i + 1]));
                    let k = choose|k: int|
                        #![trigger fewer[k]]
                        0 <= k < fewer.len() && fewer[k].from.dotted() == walk[i]
                            && fewer[k].to.dotted() == walk[i + 1];
                    assert(deps[k] == fewer[k]);
                }
            }
            assert(is_cycle(deps, walk));
        }
        // All that `b` does not lead to is moved up far enough for `a` to come after `b`.
        let lift = if rank(b) < rank(a) {
            0
        } else {
            rank(b) - rank(a) + 1
        };
        let lifted = |text: Seq<char>|
            if leads_to(fewer, b, text) {
                rank(text)
            } else {
                rank(text) + lift
            };
        assert(leads_to(fewer, b, b)) by {
            assert(is_walk(fewer, seq![b]));
        }
        assert forall|i: int| #![trigger deps[i]] 0 <= i < deps.len() implies lifted(
            deps[i].to.dotted(),
        ) < lifted(deps[i].from.dotted()) by {
            if i < fewer.len() {
                let x = fewer[i].from.dotted();
                let y = fewer[i].to.dotted();
                assert(deps[i] == fewer[i]);
                assert(rank(y) < rank(x));
                assert(edge(fewer, x, y));
                if leads_to(fewer, b, x) {
                    lemma_walk_on(fewer, b, x, y);
                }
            }
        }
        assert(upstream_first(deps, lifted));
    }
}

/// An address that depends on itself is a cycle.
pub proof fn law_self_dependency_is_a_cycle(deps: Seq<DependencyView>, i: int)
    requires
        0 <= i < deps.len(),
        deps[i].from.dotted() == deps[i].to.dotted(),
    ensures
        is_cycle(deps, seq![deps[i].from.dotted()]),
        !acyclic(deps),
{
    assert(is_cycle(deps, seq![deps[i].from.dotted()]));
}

/// In an acyclic set nothing that an address depends on, directly or through
/// others, depends on that address in turn.
pub proof fn law_no_upstream_depends_on_its_dependent(
    deps: Seq<DependencyView>,
    dependent: AddressView,
    upstream: AddressView,
)
    requires
        acyclic(deps),
        declares(deps, dependent, upstream),
    ensures
        !in_reach(deps, upstream, dependent),
{
    if in_reach(deps, upstream, dependent) {
        let route = choose|route: Seq<AddressView>|
            #[trigger] is_route(deps, route) && route[0] == upstream && route.last() == dependent;
        let path = route.map_values(|address: AddressView| address.dotted());
        assert forall|i: int| #![trigger path[i]] 0 <= i < path.len() implies edge(
            deps,
            path[i],
            next_on(path, i),
        ) by {
            assert(path[i] == route[i].dotted());
            if i + 1 < path.len() {
                assert(declares(deps, route[i], route[i + 1]));
            }
        }
        assert(is_cycle(deps, path));
    }
}

/// The order in which a search is done with the nodes puts upstreams first.
proof fn lemma_search_order(graph: Graph, deps: Seq<DependencyView>, order: Seq<usize>)
    requires
        graph.represents(deps),
        is_ordered(graph.adj@, order),
        forall|u: usize| u < graph.adj@.len() ==> #[trigger] order.contains(u),
    ensures
        can_be_ordered(deps),
{
    let rank = |text: Seq<char>| order.index_of_first(graph.numbers@[text])->0;
    assert forall|i: int| #![trigger deps[i]] 0 <= i < deps.len() implies rank(
        deps[i].to.dotted(),
    ) < rank(deps[i].from.dotted()) by {
        assert(graph.has_edge_of(deps[i]));
        let u = graph.numbers@[deps[i].from.dotted()];
        let v = graph.numbers@[deps[i].to.dotted()];
        lemma_edge_is_closed(graph.adj@, u, v);
        assert(order.contains(u));
        order.index_of_first_ensures(u);
        let at = order.index_of_first(u)->0;
        assert(all_followers_in(graph.adj@, order[at], order.take(at)));
        assert(order.take(at).contains(v));
        let k = choose|k: int| 0 <= k < order.take(at).len() && order.take(at)[k] == v;
        assert(order[k] == v);
        order.index_of_first_ensures(v);
    }
    assert(upstream_first(deps, rank));
}

/// The names of the nodes `path[start..]`.
spec fn names_from(names: Seq<String>, path: Seq<usize>, start: int) -> Seq<Seq<char>> {
    Seq::new((path.len() - start) as nat, |k: int| names[path[start + k] as int]@)
}

/// Writes down the names of the nodes `path[start..]`.
fn describe(names: &Vec<String>, path: &Vec<usize>, start: usize) -> (text: String)
    requires
        start < path.len(),
        forall|i: int| 0 <= i < path@.len() ==> #[trigger] path@[i] < names@.len(),
    ensures
        text@ == path_text(names_from(names@, path@, start as int)),
{
    let ghost full = names_from(names@, path@, start as int);
    let mut text: String = names[path[start]].clone();
    let mut i: usize = start + 1;
    assert(full.take(1) =~= seq![full[0]]);
    while i < path.len()
        invariant
            start < i <= path@.len(),
            forall|i: int| 0 <= i < path@.len() ==> #[trigger] path@[i] < names@.len(),
            full == names_from(names@, path@, start as int),
            text@ == path_text(full.take(i - start)),
        decreases path@.len() - i,
    {
        text.append(" -> ");
        text.append(names[path[i]].as_str());
        proof {
            let longer = full.take(i + 1 - start);
            assert(longer.drop_last() =~= full.take(i - start));
            assert(longer.last() == names@[path@[i as int] as int]@);
        }
        i = i + 1;
    }
    assert(full.take(full.len() as int) =~= full);
    text
}

/// Where a search closes, the names from there on make up a cycle of dependencies.
proof fn lemma_closed_path_is_cycle(
    graph: Graph,
    deps: Seq<DependencyView>,
    search: Search,
    start: usize,
)
    requires
        graph.represents(deps),
        search.adj@ == graph.adj@,
        search.in_bounds(),
        search.path_ok(),
        search.closes_at(start),
    ensures
        is_cycle(deps, names_from(graph.names@, search.path@, start as int)),
        names_from(graph.names@, search.path@, start as int).no_duplicates(),
{
    let path = search.path@;
    let cycle = names_from(graph.names@, path, start as int);
    assert forall|k: int| #![trigger cycle[k]] 0 <= k < cycle.len() implies edge(
        deps,
        cycle[k],
        next_on(cycle, k),
    ) by {
        let u = path[start + k];
        assert(cycle[k] == graph.name(u));
        if k + 1 < cycle.len() {
            assert(is_chain(search.adj@, path));
            assert(follows(search.adj@, path[start + k], path[start + k + 1]));
            assert(follows(graph.adj@, u, path[start + k + 1]));
        } else {
            assert(u == path.last());
            assert(follows(graph.adj@, u, path[start as int]));
            assert(cycle[0] == graph.name(path[start as int]));
        }
    }
    assert forall|j: int, k: int|
        0 <= j < cycle.len() && 0 <= k < cycle.len() && j != k implies cycle[j] != cycle[k] by {
        let u = path[start + j];
        let v = path[start + k];
        assert(u != v);
        assert(graph.numbers@[graph.name(u)] == u);
        assert(graph.numbers@[graph.name(v)] == v);
    }
}

/// Looks for a cycle of dependencies. If there is one, the first one found is
/// returned, as a path of dotted addresses.
///
/// # Errors
/// [`DependencyError::Cycle`] if there is a cycle, and only then.
pub fn validate_acyclic(deps: &[LavaArchitectureDependency]) -> (result: Result<
    (),
    DependencyError,
>)
    ensures
        result is Ok <==> acyclic(views(deps@)),
        result is Ok <==> can_be_ordered(views(deps@)),
        result matches Err(DependencyError::Cycle(text)) ==> exists|cycle: Seq<Seq<char>>|
            {
                &&& #[trigger] is_cycle(views(deps@), cycle)
                &&& cycle.no_duplicates()
                &&& text@ == path_text(cycle)
            },
{
    let ghost all = views(deps@);
    let mut graph: Graph = Graph::new();
    let mut i: usize = 0;
    assert(all.take(0) =~= Seq::empty());
    while i < deps.len()
        invariant
            i <= deps@.len(),
            all == views(deps@),
            graph.represents(all.take(i as int)),
        decreases deps@.len() - i,
    {
        graph.connect(&deps[i], Ghost(all.take(i as int)));
        assert(all.take(i + 1) =~= all.take(i as int).push(deps@[i as int]@));
        i = i + 1;
    }
    assert(all.take(i as int) =~= all);
    let ghost built = graph;
    let mut search: Search = Search::new(graph.adj);
    let mut node: usize = 0;
    while node < graph.names.len()
        invariant
            built.represents(all),
            graph.names == built.names,
            all == views(deps@),
            node <= built.names@.len(),
            search.wf(),
            search.adj == built.adj,
            search.path@.len() == 0,
            forall|u: usize| u < node ==> #[trigger] search.order@.contains(u),
        decreases built.names@.len() - node,
    {
        let ghost before = search;
        let found: Option<usize> = search.dfs(node);
        if let Some(start) = found {
            proof {
                lemma_closed_path_is_cycle(built, all, search, start);
                if can_be_ordered(all) {
                    law_ordered_dependencies_are_acyclic(all);
                }
            }
            return Err(DependencyError::Cycle(describe(&graph.names, &search.path, start)));
        }
        proof {
            assert forall|u: usize| u < node + 1 implies #[trigger] search.order@.contains(u) by {
                if u < node {
                    assert(before.order@.contains(u));
                    let k = choose|k: int| 0 <= k < before.order@.len() && before.order@[k] == u;
                    assert(search.order@[k] == u);
                }
            }
        }
        node = node + 1;
    }
    proof {
        lemma_search_order(built, all, search.order@);
        law_ordered_dependencies_are_acyclic(all);
    }
    Ok(())
}

/// On a cycle a dependency leads from each address to the one after it, and from
/// the last to the first; and every such path is a cycle.
pub proof fn law_cycle_runs_along_dependencies(deps: Seq<DependencyView>, path: Seq<Seq<char>>)
    ensures
        is_cycle(deps, path) <==> {
            &&& path.len() > 0
            &&& forall|i: int, j: int|
                #![trigger path[i], path[j]]
                0 <= i && j == i + 1 && j < path.len() ==> exists|k: int|
                    #![trigger deps[k]]
                    0 <= k < deps.len() && deps[k].from.dotted() == path[i] && deps[k].to.dotted()
                        == path[j]
            &&& exists|k: int|
                #![trigger deps[k]]
                0 <= k < deps.len() && deps[k].from.dotted() == path[path.len() - 1]
                    && deps[k].to.dotted() == path[0]
        },
{
    if is_cycle(deps, path) {
        assert forall|i: int, j: int|
            #![trigger path[i], path[j]]
            0 <= i && j == i + 1 && j < path.len() implies exists|k: int|
            #![trigger deps[k]]
            0 <= k < deps.len() && deps[k].from.dotted() == path[i] && deps[k].to.dotted()
                == path[j] by {
            assert(edge(deps, path[i], next_on(path, i)));
        }
        assert(edge(deps, path[path.len() - 1], next_on(path, path.len() - 1)));
    }
    if path.len() > 0 && (forall|i: int, j: int|
        #![trigger path[i], path[j]]
        0 <= i && j == i + 1 && j < path.len() ==> exists|k: int|
            #![trigger deps[k]]
            0 <= k < deps.len() && deps[k].from.dotted() == path[i] && deps[k].to.dotted()
                == path[j]) && (exists|k: int|
        #![trigger deps[k]]
        0 <= k < deps.len() && deps[k].from.dotted() == path[path.len() - 1] && deps[k].to.dotted()
            == path[0]) {
        assert forall|i: int| #![trigger path[i]] 0 <= i < path.len() implies edge(
            deps,
            path[i],
            next_on(path, i),
        ) by {
            if i + 1 < path.len() {
                assert(path[i + 1] == next_on(path, i));
            }
        }
    }
}

/// Dependencies that lead on to one another and back to the first, whatever
/// their kinds, are refused: `ring` holds their places in `deps`.
pub proof fn law_ring_of_dependencies_is_refused(deps: Seq<DependencyView>, ring: Seq<int>)
    requires
        ring.len() > 0,
        forall|j: int| 0 <= j < ring.len() ==> 0 <= #[trigger] ring[j] < deps.len(),
        forall|i: int, j: int|
            #![trigger ring[i], ring[j]]
            0 <= i && j == i + 1 && j < ring.len() ==> deps[ring[i]].to.dotted()
                == deps[ring[j]].from.dotted(),
        deps[ring[ring.len() - 1]].to.dotted() == deps[ring[0]].from.dotted(),
    ensures
        !acyclic(deps),
{
    let path = Seq::new(ring.len(), |j: int| deps[ring[j]].from.dotted());
    assert forall|j: int| #![trigger path[j]] 0 <= j < path.len() implies edge(
        deps,
        path[j],
        next_on(path, j),
    ) by {
        assert(0 <= ring[j] < deps.len());
        assert(deps[ring[j]].from.dotted() == path[j]);
        if j + 1 < path.len() {
            assert(deps[ring[j + 1]].from.dotted() == path[j + 1]);
        } else {
            assert(deps[ring[0]].from.dotted() == path[0]);
        }
    }
    assert(is_cycle(deps, path));
}

/// Where dependencies are refused, some of them lead on to one another and back
/// to the first.
pub proof fn law_refused_dependencies_have_a_ring(deps: Seq<DependencyView>) -> (ring: Seq<int>)
    requires
        !acyclic(deps),
    ensures
        ring.len() > 0,
        forall|j: int| 0 <= j < ring.len() ==> 0 <= #[trigger] ring[j] < deps.len(),
        forall|i: int, j: int|
            #![trigger ring[i], ring[j]]
            0 <= i && j == i + 1 && j < ring.len() ==> deps[ring[i]].to.dotted()
                == deps[ring[j]].from.dotted(),
        deps[ring[ring.len() - 1]].to.dotted() == deps[ring[0]].from.dotted(),
{
    let path = choose|path: Seq<Seq<char>>| #[trigger] is_cycle(deps, path);
    let step = |j: int|
        choose|k: int|
            #![trigger deps[k]]
            0 <= k < deps.len() && deps[k].from.dotted() == path[j] && deps[k].to.dotted()
                == next_on(path, j);
    let ring = Seq::new(path.len(), step);
    assert forall|j: int| 0 <= j < path.len() implies {
        &&& 0 <= #[trigger] ring[j] < deps.len()
        &&& deps[ring[j]].from.dotted() == path[j]
        &&& deps[ring[j]].to.dotted() == next_on(path, j)
    } by {
        assert(edge(deps, path[j], next_on(path, j)));
        assert(ring[j] == step(j));
    }
    ring
}

/// Dependencies are accepted if numbers can be given to the addresses so that
/// every upstream has a smaller one than its dependent.
pub proof fn law_ranked_dependencies_are_accepted(
    deps: Seq<DependencyView>,
    rank: spec_fn(Seq<char>) -> int,
)
    requires
        forall|i: int|
            #![trigger deps[i]]
            0 <= i < deps.len() ==> rank(deps[i].to.dotted()) < rank(deps[i].from.dotted()),
    ensures
        acyclic(deps),
        can_be_ordered(deps),
{
    assert(upstream_first(deps, rank));
    law_ordered_dependencies_are_acyclic(deps);
}

/// Where dependencies are accepted there are such numbers.
pub proof fn law_accepted_dependencies_have_ranks(deps: Seq<DependencyView>) -> (rank: spec_fn(
    Seq<char>,
) -> int)
    requires
        acyclic(deps) || can_be_ordered(deps),
    ensures
        forall|i: int|
            #![trigger deps[i]]
            0 <= i < deps.len() ==> rank(deps[i].to.dotted()) < rank(deps[i].from.dotted()),
{
    if acyclic(deps) {
        law_acyclic_dependencies_can_be_ordered(deps);
    }
    choose|rank: spec_fn(Seq<char>) -> int| #[trigger] upstream_first(deps, rank)
}

/// One address is written as it is, and each further one after ` -> `.
pub proof fn law_path_is_written_with_arrows(path: Seq<Seq<char>>, address: Seq<char>)
    ensures
        path_text(seq![address]) == address,
        path.len() > 0 ==> path_text(path.push(address)) == path_text(path) + seq![
            ' ',
            '-',
            '>',
            ' ',
        ] + address,
{
    reveal_strlit(" -> ");
    assert(" -> "@ =~= seq![' ', '-', '>', ' ']);
    assert(path.push(address).drop_last() =~= path);
}

} // verus!
