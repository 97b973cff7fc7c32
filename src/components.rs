//! Connected components by iterative depth-first search.
use std::collections::HashSet;
use crate::graph::{is_edge, AdjacencyList, Vertex};
use crate::reach::{
    closed, component_of, lemma_closed_holds_reachable, lemma_reach_in_domain,
    lemma_within_symmetric, lemma_within_trans, reachable, reachable_within,
};
use crate::bfs::is_distance_map;
use vstd::prelude::*;

verus! {

broadcast use vstd::std_specs::hash::group_hash_axioms;

/// The views of a sequence of hash sets.
pub open spec fn set_views(comps: Seq<HashSet<Vertex>>) -> Seq<Set<Vertex>> {
    comps.map_values(|h: HashSet<Vertex>| h@)
}

/// `c` is the connected component of one of the vertices of `adj`.
pub open spec fn is_component(adj: Map<Vertex, Set<Vertex>>, c: Set<Vertex>) -> bool {
    exists|v: Vertex| adj.contains_key(v) && c == #[trigger] component_of(adj, v)
}

/// `comps` lists the connected components of `adj`: each is the set of
/// vertices reachable from one of its vertices, no two share a vertex, and
/// together they hold exactly the vertices of `adj`.
pub open spec fn is_component_partition(adj: Map<Vertex, Set<Vertex>>, comps: Seq<Set<Vertex>>) -> bool {
    &&& forall|i: int| 0 <= i < comps.len() ==> is_component(adj, #[trigger] comps[i])
    &&& forall|i: int, j: int| 0 <= i < comps.len() && 0 <= j < comps.len() && i != j ==>
        (#[trigger] comps[i]).disjoint(#[trigger] comps[j])
    &&& forall|i: int, v: Vertex| 0 <= i < comps.len() && #[trigger] comps[i].contains(v) ==> adj.contains_key(v)
    &&& forall|v: Vertex| #[trigger] adj.contains_key(v) ==> exists|i: int|
        0 <= i < comps.len() && #[trigger] comps[i].contains(v)
}

/// Adds to `visited` and to `component` every vertex reachable from `start`,
/// with an explicit stack. No vertex of `visited` may be reachable from
/// `start` beforehand.
pub fn dfs(
    graph: &AdjacencyList,
    start: Vertex,
    visited: &mut HashSet<Vertex>,
    component: &mut HashSet<Vertex>,
)
    requires
        graph.wf(),
        forall|w: Vertex| #[trigger] old(visited)@.contains(w) ==> !reachable(graph@, start, w),
    ensures
        final(visited)@ == old(visited)@.union(component_of(graph@, start)),
        final(component)@ == old(component)@.union(component_of(graph@, start)),
{
    let ghost adj = graph@;
    let ghost v0 = visited@;
    let ghost k0 = component@;
    let ghost univ = adj.dom().insert(start);
    let ghost mut c: Set<Vertex> = Set::empty();
    let mut stack: Vec<Vertex> = Vec::new();
    stack.push(start);
    proof {
        graph.lemma_order();
        assert(stack@[0] == start);
        assert(visited@ =~= v0.union(c));
        assert(component@ =~= k0.union(c));
        assert(reachable_within(adj, start, start, 0));
    }
    while stack.len() > 0
        invariant
            graph.wf(),
            adj == graph@,
            univ == adj.dom().insert(start),
            univ.finite(),
            forall|w: Vertex| #[trigger] v0.contains(w) ==> !reachable(adj, start, w),
            visited@ == v0.union(c),
            component@ == k0.union(c),
            c.subset_of(univ),
            forall|x: Vertex| #[trigger] c.contains(x) ==> reachable(adj, start, x),
            forall|x: Vertex| #[trigger] stack@.contains(x) ==> reachable(adj, start, x),
            forall|x: Vertex, y: Vertex| c.contains(x) && #[trigger] is_edge(adj, x, y) ==> c.contains(y) || stack@.contains(y),
            c.contains(start) || stack@.contains(start),
        decreases univ.len() - c.len(), stack@.len(),
    {
        proof {
            vstd::set_lib::lemma_len_subset(c, univ);
        }
        let ghost s0 = stack@;
        let popped = stack.pop();
        match popped {
            Some(node) => {
                proof {
                    assert(s0.contains(node)) by {
                        assert(s0[s0.len() - 1] == node);
                    }
                    assert forall|y: Vertex| #[trigger] stack@.contains(y) implies s0.contains(y) by {
                        let p = choose|p: int| 0 <= p < stack@.len() && stack@[p] == y;
                        assert(s0[p] == y);
                    }
                    assert forall|y: Vertex| #[trigger] s0.contains(y) implies y == node || stack@.contains(y) by {
                        let p = choose|p: int| 0 <= p < s0.len() && s0[p] == y;
                        if p < s0.len() - 1 {
                            assert(stack@[p] == y);
                        }
                    }
                }
                if !visited.contains(&node) {
                    visited.insert(node);
                    component.insert(node);
                    proof {
                        let n = choose|n: nat| reachable_within(adj, start, node, n);
                        lemma_reach_in_domain(adj, start, node, n);
                        c = c.insert(node);
                        vstd::set_lib::lemma_len_subset(c, univ);
                        assert(visited@ =~= v0.union(c));
                        assert(component@ =~= k0.union(c));
                    }
                    let nbrs = graph.neighbors(node);
                    let ghost s1 = stack@;
                    let mut j: usize = 0;
                    while j < nbrs.len()
                        invariant
                            j <= nbrs@.len(),
                            stack@ == s1 + nbrs@.subrange(0, j as int),
                        decreases nbrs@.len() - j,
                    {
                        stack.push(nbrs[j]);
                        proof {
                            assert(nbrs@.subrange(0, j + 1) == nbrs@.subrange(0, j as int).push(nbrs@[j as int]));
                        }
                        j = j + 1;
                    }
                    proof {
                        assert(nbrs@.subrange(0, nbrs@.len() as int) == nbrs@);
                        assert forall|y: Vertex| #[trigger] stack@.contains(y) <==> s1.contains(y) || nbrs@.contains(y) by {
                            if stack@.contains(y) {
                                let p = choose|p: int| 0 <= p < stack@.len() && stack@[p] == y;
                                if p >= s1.len() {
                                    assert(nbrs@[p - s1.len()] == y);
                                }
                            }
                            if s1.contains(y) {
                                let p = choose|p: int| 0 <= p < s1.len() && s1[p] == y;
                                assert(stack@[p] == y);
                            }
                            if nbrs@.contains(y) {
                                let p = choose|p: int| 0 <= p < nbrs@.len() && nbrs@[p] == y;
                                assert(stack@[s1.len() + p] == y);
                            }
                        }
                        assert forall|y: Vertex| #[trigger] stack@.contains(y) implies reachable(adj, start, y) by {
                            if nbrs@.contains(y) && !s1.contains(y) {
                                let n = choose|n: nat| reachable_within(adj, start, node, n);
                                assert(is_edge(adj, node, y));
                                assert(reachable_within(adj, start, y, n + 1));
                            }
                        }
                    }
                } else {
                    proof {
                        assert(!v0.contains(node));
                    }
                }
            },
            None => {},
        }
    }
    proof {
        assert(closed(adj, c));
        assert forall|t: Vertex| #[trigger] component_of(adj, start).contains(t) <==> c.contains(t) by {
            if reachable(adj, start, t) {
                let n = choose|n: nat| reachable_within(adj, start, t, n);
                lemma_closed_holds_reachable(adj, c, start, t, n);
            }
        }
        assert(c =~= component_of(adj, start));
    }
}

/// The connected components of `graph`, found by a depth-first search from
/// each vertex not yet visited, in order of first appearance.
pub fn connected_nodes(graph: &AdjacencyList) -> (r: Vec<HashSet<Vertex>>)
    requires
        graph.wf(),
    ensures
        is_component_partition(graph@, set_views(r@)),
{
    let ghost adj = graph@;
    let mut visited: HashSet<Vertex> = HashSet::new();
    let mut components: Vec<HashSet<Vertex>> = Vec::new();
    let n = graph.len();
    proof {
        graph.lemma_order();
        assert(closed(adj, visited@));
    }
    let mut i: usize = 0;
    while i < n
        invariant
            graph.wf(),
            adj == graph@,
            n == graph.vertex_order().len(),
            i <= n,
            closed(adj, visited@),
            forall|k: int| 0 <= k < i ==> visited@.contains(#[trigger] graph.vertex_order()[k]),
            forall|x: Vertex| #[trigger] visited@.contains(x) <==> exists|k: int|
                0 <= k < components@.len() && #[trigger] set_views(components@)[k].contains(x),
            forall|k: int| 0 <= k < components@.len() ==> is_component(adj, #[trigger] set_views(components@)[k]),
            forall|k: int, l: int| 0 <= k < components@.len() && 0 <= l < components@.len() && k != l ==>
                (#[trigger] set_views(components@)[k]).disjoint(#[trigger] set_views(components@)[l]),
            forall|x: Vertex| #[trigger] visited@.contains(x) ==> adj.contains_key(x),
        decreases n - i,
    {
        let node = graph.vertex_at(i);
        proof {
            graph.lemma_order();
            assert(graph.vertex_order().contains(node));
        }
        if !visited.contains(&node) {
            proof {
                assert forall|w: Vertex| #[trigger] visited@.contains(w) implies !reachable(adj, node, w) by {
                    if reachable(adj, node, w) {
                        let m = choose|m: nat| reachable_within(adj, node, w, m);
                        lemma_within_symmetric(adj, node, w, m);
                        lemma_closed_holds_reachable(adj, visited@, w, node, m);
                    }
                }
            }
            let ghost vis0 = visited@;
            let ghost comps0 = set_views(components@);
            let mut component: HashSet<Vertex> = HashSet::new();
            dfs(graph, node, &mut visited, &mut component);
            components.push(component);
            proof {
                let comp = component_of(adj, node);
                assert(component@ =~= comp);
                let views = set_views(components@);
                assert(views =~= comps0.push(comp));
                assert(comp.contains(node)) by {
                    assert(reachable_within(adj, node, node, 0));
                }
                assert forall|x: Vertex, y: Vertex| visited@.contains(x) && #[trigger] is_edge(adj, x, y) implies visited@.contains(y) by {
                    if comp.contains(x) {
                        let m = choose|m: nat| reachable_within(adj, node, x, m);
                        assert(reachable_within(adj, node, y, m + 1));
                    }
                }
                assert forall|x: Vertex| #[trigger] visited@.contains(x) <==> exists|k: int|
                    0 <= k < views.len() && #[trigger] views[k].contains(x) by {
                    if vis0.contains(x) {
                        let k = choose|k: int| 0 <= k < comps0.len() && #[trigger] comps0[k].contains(x);
                        assert(views[k] == comps0[k]);
                    }
                    if comp.contains(x) {
                        assert(views[comps0.len() as int] == comp);
                    }
                    if exists|k: int| 0 <= k < views.len() && #[trigger] views[k].contains(x) {
                        let k = choose|k: int| 0 <= k < views.len() && #[trigger] views[k].contains(x);
                        if k < comps0.len() {
                            assert(views[k] == comps0[k]);
                        }
                    }
                }
                assert forall|k: int| 0 <= k < views.len() implies is_component(adj, #[trigger] views[k]) by {
                    if k < comps0.len() {
                        assert(views[k] == comps0[k]);
                    } else {
                        assert(views[k] == component_of(adj, node));
                        assert(adj.contains_key(node));
                    }
                }
                assert forall|k: int, l: int| 0 <= k < views.len() && 0 <= l < views.len() && k != l implies
                    (#[trigger] views[k]).disjoint(#[trigger] views[l]) by {
                    assert forall|x: Vertex| views[k].contains(x) && views[l].contains(x) implies false by {
                        if k < comps0.len() && l < comps0.len() {
                            assert(views[k] == comps0[k]);
                            assert(views[l] == comps0[l]);
                            assert(comps0[k].disjoint(comps0[l]));
                        } else if k < comps0.len() {
                            assert(views[k] == comps0[k]);
                            assert(vis0.contains(x));
                        } else {
                            assert(views[l] == comps0[l]);
                            assert(vis0.contains(x));
                        }
                    }
                }
                assert forall|x: Vertex| #[trigger] visited@.contains(x) implies adj.contains_key(x) by {
                    if comp.contains(x) {
                        let m = choose|m: nat| reachable_within(adj, node, x, m);
                        lemma_reach_in_domain(adj, node, x, m);
                    }
                }
            }
        }
        i = i + 1;
    }
    proof {
        graph.lemma_order();
        let views = set_views(components@);
        assert forall|i: int, v: Vertex| 0 <= i < views.len() && #[trigger] views[i].contains(v) implies adj.contains_key(v) by {
            assert(visited@.contains(v));
        }
        assert forall|v: Vertex| #[trigger] adj.contains_key(v) implies exists|i: int|
            0 <= i < views.len() && #[trigger] views[i].contains(v) by {
            assert(graph.vertex_order().contains(v));
            let k = choose|k: int| 0 <= k < n && graph.vertex_order()[k] == v;
            assert(visited@.contains(graph.vertex_order()[k]));
        }
    }
    components
}

/// Two vertices lie in the same component exactly when the distance search
/// from the one reaches the other.
pub proof fn lemma_same_component_iff_reached(
    graph: AdjacencyList,
    comps: Seq<Set<Vertex>>,
    i: int,
    u: Vertex,
    v: Vertex,
    du: Map<Vertex, usize>,
)
    requires
        graph.wf(),
        is_component_partition(graph@, comps),
        0 <= i < comps.len(),
        comps[i].contains(u),
        is_distance_map(graph@, u, du),
    ensures
        comps[i].contains(v) <==> du.contains_key(v),
{
    let adj = graph@;
    assert(is_component(adj, comps[i]));
    let r = choose|r: Vertex| adj.contains_key(r) && comps[i] == #[trigger] component_of(adj, r);
    let a = choose|a: nat| reachable_within(adj, r, u, a);
    if du.contains_key(v) {
        let b = choose|b: nat| reachable_within(adj, u, v, b);
        lemma_within_trans(adj, r, u, v, a, b);
    }
    if comps[i].contains(v) {
        let c = choose|c: nat| reachable_within(adj, r, v, c);
        lemma_within_symmetric(adj, r, u, a);
        lemma_within_trans(adj, u, r, v, a, c);
    }
}

} // verus!
