//! Depth-first search for a cycle in a graph on numbered nodes.

use vstd::prelude::*;

verus! {

/// The edge from `u` to `v`.
pub open spec fn follows(adj: Seq<Vec<usize>>, u: usize, v: usize) -> bool {
    u < adj.len() && adj[u as int]@.contains(v)
}

/// Every edge leads to a node of the graph.
pub open spec fn closed_graph(adj: Seq<Vec<usize>>) -> bool {
    forall|u: int, k: int|
        0 <= u < adj.len() && 0 <= k < adj[u]@.len() ==> #[trigger] adj[u]@[k] < adj.len()
}

/// Each node of `path` has an edge to the next one.
pub open spec fn is_chain(adj: Seq<Vec<usize>>, path: Seq<usize>) -> bool {
    forall|i: int|
        #![trigger path[i]]
        0 <= i && i + 1 < path.len() ==> follows(adj, path[i], path[i + 1])
}

/// All nodes that `node` has an edge to stand in `nodes`.
pub open spec fn all_followers_in(adj: Seq<Vec<usize>>, node: usize, nodes: Seq<usize>) -> bool {
    forall|v: usize| #[trigger] follows(adj, node, v) ==> nodes.contains(v)
}

/// In `order` every node comes after all nodes that it has an edge to.
pub open spec fn is_ordered(adj: Seq<Vec<usize>>, order: Seq<usize>) -> bool {
    forall|i: int|
        #![trigger order[i]]
        0 <= i < order.len() ==> all_followers_in(adj, order[i], order.take(i))
}

/// The state of a search.
pub struct Search {
    /// The edges, by the node that they leave.
    pub adj: Vec<Vec<usize>>,
    /// The nodes whose edges are being followed.
    pub visiting: Vec<bool>,
    /// The nodes that are done with.
    pub visited: Vec<bool>,
    /// The nodes whose edges are being followed, outermost first.
    pub path: Vec<usize>,
    /// The nodes that are done with, in the order in which that came about.
    pub order: Ghost<Seq<usize>>,
}

impl Search {
    pub open spec fn in_bounds(self) -> bool {
        &&& closed_graph(self.adj@)
        &&& self.visiting@.len() == self.adj@.len()
        &&& self.visited@.len() == self.adj@.len()
        &&& forall|i: int| 0 <= i < self.path@.len() ==> #[trigger] self.path@[i] < self.adj@.len()
    }

    pub open spec fn path_ok(self) -> bool {
        &&& self.path@.no_duplicates()
        &&& is_chain(self.adj@, self.path@)
        &&& forall|u: usize|
            u < self.adj@.len() ==> (#[trigger] self.visiting@[u as int]
                <==> self.path@.contains(u))
    }

    pub open spec fn order_ok(self) -> bool {
        &&& is_ordered(self.adj@, self.order@)
        &&& forall|u: usize|
            u < self.adj@.len() ==> (#[trigger] self.visited@[u as int]
                <==> self.order@.contains(u))
    }

    pub open spec fn wf(self) -> bool {
        &&& self.in_bounds()
        &&& self.path_ok()
        &&& self.order_ok()
    }

    /// From position `start` on, the path leads back to its own beginning.
    pub open spec fn closes_at(self, start: usize) -> bool {
        &&& start < self.path@.len()
        &&& follows(self.adj@, self.path@.last(), self.path@[start as int])
    }

    /// A search that has not looked at any node.
    pub fn new(adj: Vec<Vec<usize>>) -> (search: Self)
        requires
            closed_graph(adj@),
        ensures
            search.wf(),
            search.adj == adj,
            search.path@.len() == 0,
    {
        let mut visiting: Vec<bool> = Vec::new();
        let mut visited: Vec<bool> = Vec::new();
        let mut i: usize = 0;
        while i < adj.len()
            invariant
                i <= adj@.len(),
                visiting@.len() == i,
                visited@.len() == i,
                forall|u: int| 0 <= u < i ==> !#[trigger] visiting@[u],
                forall|u: int| 0 <= u < i ==> !#[trigger] visited@[u],
            decreases adj@.len() - i,
        {
            visiting.push(false);
            visited.push(false);
            i = i + 1;
        }
        Search { adj, visiting, visited, path: Vec::new(), order: Ghost(Seq::empty()) }
    }

    /// The place of `node` in the path.
    fn position_in_path(&self, node: usize) -> (start: usize)
        requires
            self.path@.contains(node),
        ensures
            start < self.path@.len(),
            self.path@[start as int] == node,
    {
        let mut i: usize = 0;
        while self.path[i] != node
            invariant
                i < self.path.len(),
                exists|k: int| i <= k < self.path@.len() && self.path@[k] == node,
            decreases self.path@.len() - i,
        {
            i = i + 1;
        }
        i
    }

    /// Follows the edges of `node`. If that leads back to a node of the path,
    /// the answer is where in the path the cycle begins.
    pub fn dfs(&mut self, node: usize) -> (start: Option<usize>)
        requires
            old(self).wf(),
            node < old(self).adj@.len(),
            old(self).path@.len() > 0 ==> follows(old(self).adj@, old(self).path@.last(), node),
        ensures
            final(self).adj == old(self).adj,
            final(self).in_bounds(),
            final(self).path_ok(),
            match start {
                Some(at) => final(self).closes_at(at),
                None => {
                    &&& final(self).wf()
                    &&& final(self).path@ == old(self).path@
                    &&& old(self).order@.is_prefix_of(final(self).order@)
                    &&& final(self).order@.contains(node)
                },
            },
        decreases old(self).adj@.len() - old(self).path@.len(),
    {
        if self.visiting[node] {
            return Some(self.position_in_path(node));
        }
        if self.visited[node] {
            return None;
        }
        let ghost before = *self;
        self.visiting.set(node, true);
        self.path.push(node);
        proof {
            lemma_pushed_path(before, *self, node);
            lemma_distinct_numbers_fit(self.path@, self.adj@.len());
        }
        let ghost entered = *self;
        let mut k: usize = 0;
        while k < self.adj[node].len()
            invariant
                self.wf(),
                node < self.adj@.len(),
                self.adj == before.adj,
                self.path@ == entered.path@,
                entered.path@ == before.path@.push(node),
                self.path@.len() <= self.adj@.len(),
                k <= self.adj@[node as int]@.len(),
                before.order@.is_prefix_of(self.order@),
                forall|j: int|
                    0 <= j < k ==> self.order@.contains(#[trigger] self.adj@[node as int]@[j]),
                before == *old(self),
            decreases self.adj@[node as int]@.len() - k,
        {
            let child: usize = self.adj[node][k];
            let ghost looping = *self;
            let found = self.dfs(child);
            if found.is_some() {
                return found;
            }
            proof {
                assert forall|j: int| 0 <= j < k + 1 implies self.order@.contains(
                    #[trigger] self.adj@[node as int]@[j],
                ) by {
                    if j < k {
                        let v = self.adj@[node as int]@[j];
                        let at = choose|at: int|
                            0 <= at < looping.order@.len() && looping.order@[at] == v;
                        assert(self.order@[at] == v);
                    }
                }
            }
            k = k + 1;
        }
        let ghost leaving = *self;
        self.path.pop();
        self.visiting.set(node, false);
        self.visited.set(node, true);
        self.order = Ghost(self.order@.push(node));
        proof {
            assert(self.path@ =~= before.path@);
            lemma_popped_path(before, leaving, *self, node);
            lemma_finished(leaving, *self, node);
        }
        None
    }
}

/// Numbers below `n` that are all different are no more than `n`.
pub proof fn lemma_distinct_numbers_fit(distinct: Seq<usize>, n: nat)
    requires
        distinct.no_duplicates(),
        forall|i: int| 0 <= i < distinct.len() ==> #[trigger] distinct[i] < n,
    ensures
        distinct.len() <= n,
{
    let numbers = distinct.map_values(|u: usize| u as int);
    assert(numbers.no_duplicates());
    numbers.unique_seq_to_set();
    let all = vstd::set_lib::set_int_range(0, n as int);
    vstd::set_lib::lemma_int_range(0, n as int);
    assert(numbers.to_set().subset_of(all)) by {
        assert forall|x: int| numbers.to_set().contains(x) implies all.contains(x) by {
            let i = choose|i: int| 0 <= i < numbers.len() && numbers[i] == x;
            assert(distinct[i] < n);
        }
    }
    vstd::set_lib::lemma_len_subset(numbers.to_set(), all);
}

proof fn lemma_pushed_path(before: Search, after: Search, node: usize)
    requires
        before.wf(),
        node < before.adj@.len(),
        !before.visiting@[node as int],
        before.path@.len() > 0 ==> follows(before.adj@, before.path@.last(), node),
        after.adj == before.adj,
        after.visited == before.visited,
        after.order == before.order,
        after.visiting@ == before.visiting@.update(node as int, true),
        after.path@ == before.path@.push(node),
    ensures
        after.wf(),
{
    assert(!before.path@.contains(node));
    assert forall|u: usize| u < after.adj@.len() implies (#[trigger] after.visiting@[u as int]
        <==> after.path@.contains(u)) by {
        if u == node {
            assert(after.path@[before.path@.len() as int] == node);
        } else if before.path@.contains(u) {
            let i = choose|i: int| 0 <= i < before.path@.len() && before.path@[i] == u;
            assert(after.path@[i] == u);
        }
        assert(before.visiting@[u as int] <==> before.path@.contains(u));
    }
    assert forall|i: int| #![trigger after.path@[i]] 0 <= i && i + 1 < after.path@.len() implies follows(
        after.adj@,
        after.path@[i],
        after.path@[i + 1],
    ) by {
        assert(after.path@[i] == before.path@[i]);
    }
}

proof fn lemma_popped_path(before: Search, leaving: Search, after: Search, node: usize)
    requires
        before.in_bounds(),
        before.path_ok(),
        node < before.adj@.len(),
        !before.visiting@[node as int],
        leaving.in_bounds(),
        leaving.path_ok(),
        leaving.adj == before.adj,
        leaving.path@ == before.path@.push(node),
        after.adj == before.adj,
        after.path@ == before.path@,
        after.visiting@ == leaving.visiting@.update(node as int, false),
    ensures
        after.path_ok(),
{
    assert(!before.path@.contains(node));
    assert forall|u: usize| u < after.adj@.len() implies (#[trigger] after.visiting@[u as int]
        <==> after.path@.contains(u)) by {
        if u != node {
            assert(leaving.visiting@[u as int] <==> leaving.path@.contains(u));
            if before.path@.contains(u) {
                let i = choose|i: int| 0 <= i < before.path@.len() && before.path@[i] == u;
                assert(leaving.path@[i] == u);
            }
        }
    }
}

proof fn lemma_finished(leaving: Search, after: Search, node: usize)
    requires
        leaving.order_ok(),
        leaving.in_bounds(),
        node < leaving.adj@.len(),
        forall|j: int|
            0 <= j < leaving.adj@[node as int]@.len() ==> leaving.order@.contains(
                #[trigger] leaving.adj@[node as int]@[j],
            ),
        after.adj == leaving.adj,
        after.visited@ == leaving.visited@.update(node as int, true),
        after.order@ == leaving.order@.push(node),
    ensures
        after.order_ok(),
        after.order@.contains(node),
        leaving.order@.is_prefix_of(after.order@),
{
    let old_len = leaving.order@.len();
    assert(after.order@[old_len as int] == node);
    assert forall|i: int| #![trigger after.order@[i]] 0 <= i < after.order@.len() implies all_followers_in(
        after.adj@,
        after.order@[i],
        after.order@.take(i),
    ) by {
        assert(after.order@.take(i) =~= leaving.order@.take(i));
        if i == old_len {
            assert(leaving.order@.take(i) =~= leaving.order@);
        } else {
            assert(leaving.order@[i] == after.order@[i]);
        }
    }
    assert forall|u: usize| u < after.adj@.len() implies (#[trigger] after.visited@[u as int]
        <==> after.order@.contains(u)) by {
        assert(leaving.visited@[u as int] <==> leaving.order@.contains(u));
        if u != node {
            if leaving.order@.contains(u) {
                let i = choose|i: int| 0 <= i < leaving.order@.len() && leaving.order@[i] == u;
                assert(after.order@[i] == u);
            }
        }
    }
}

} // verus!
