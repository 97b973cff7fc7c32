//! Single-source hop distances by breadth-first search.
use std::collections::HashMap;
use crate::graph::{is_edge, AdjacencyList, Vertex};
use crate::reach::{
    is_distance, lemma_closed_holds_reachable, lemma_within_mono, lemma_within_symmetric,
    reachable, reachable_within,
};
use vstd::prelude::*;

verus! {

broadcast use vstd::std_specs::hash::group_hash_axioms;

/// `d` holds exactly the vertices reachable from `s`, each with its hop
/// distance from `s`.
pub open spec fn is_distance_map(adj: Map<Vertex, Set<Vertex>>, s: Vertex, d: Map<Vertex, usize>) -> bool {
    &&& forall|t: Vertex| #[trigger] d.contains_key(t) <==> reachable(adj, s, t)
    &&& forall|t: Vertex| #[trigger] d.contains_key(t) ==> is_distance(adj, s, t, d[t] as nat)
}

/// `d` holds exactly what lies within `level` edges of `s`, with distances.
spec fn level_map(adj: Map<Vertex, Set<Vertex>>, s: Vertex, d: Map<Vertex, usize>, level: nat) -> bool {
    &&& forall|t: Vertex| #[trigger] d.contains_key(t) <==> reachable_within(adj, s, t, level)
    &&& forall|t: Vertex| #[trigger]
        d.contains_key(t) ==> is_distance(adj, s, t, d[t] as nat) && d[t] <= level
}

/// `f` lists the vertices of `d` at distance `level`.
spec fn frontier_of(f: Seq<Vertex>, d: Map<Vertex, usize>, level: nat) -> bool {
    forall|t: Vertex| #[trigger] f.contains(t) <==> d.contains_key(t) && d[t] == level
}

/// Some vertex among the first `i` of `f` has `t` as a neighbour.
spec fn touched(adj: Map<Vertex, Set<Vertex>>, f: Seq<Vertex>, i: int, t: Vertex) -> bool {
    exists|p: int| 0 <= p < i && #[trigger] is_edge(adj, f[p], t)
}

/// Expanding the whole frontier of level `level` gives the next level.
proof fn lemma_level_step(
    adj: Map<Vertex, Set<Vertex>>,
    s: Vertex,
    d0: Map<Vertex, usize>,
    d: Map<Vertex, usize>,
    f: Seq<Vertex>,
    level: nat,
)
    requires
        level_map(adj, s, d0, level),
        frontier_of(f, d0, level),
        forall|t: Vertex| #[trigger] d.contains_key(t) <==> d0.contains_key(t) || touched(adj, f, f.len() as int, t),
        forall|t: Vertex| #[trigger] d.contains_key(t) && !d0.contains_key(t) ==> d[t] == level + 1,
        forall|t: Vertex| #[trigger] d0.contains_key(t) ==> d[t] == d0[t],
    ensures
        level_map(adj, s, d, level + 1),
{
    assert forall|t: Vertex| #[trigger] d.contains_key(t) <==> reachable_within(adj, s, t, level + 1) by {
        if d0.contains_key(t) {
            lemma_within_mono(adj, s, t, level, level + 1);
        } else if touched(adj, f, f.len() as int, t) {
            let p = choose|p: int| 0 <= p < f.len() && #[trigger] is_edge(adj, f[p], t);
            assert(f.contains(f[p]));
            assert(reachable_within(adj, s, f[p], level));
        }
        if reachable_within(adj, s, t, level + 1) && !reachable_within(adj, s, t, level) {
            let w = choose|w: Vertex| #[trigger] is_edge(adj, w, t) && reachable_within(adj, s, w, level);
            assert(d0.contains_key(w));
            let dw = d0[w] as nat;
            if dw == level {
                assert(f.contains(w));
                let p = choose|p: int| 0 <= p < f.len() && f[p] == w;
                assert(is_edge(adj, f[p], t));
            } else {
                assert(reachable_within(adj, s, t, dw + 1));
                lemma_within_mono(adj, s, t, dw + 1, level);
            }
        }
    }
    assert forall|t: Vertex| #[trigger] d.contains_key(t) implies is_distance(adj, s, t, d[t] as nat)
        && d[t] <= level + 1 by {
        if !d0.contains_key(t) {
            assert(reachable_within(adj, s, t, level + 1));
            assert forall|m: nat| m < level + 1 implies !#[trigger] reachable_within(adj, s, t, m) by {
                if reachable_within(adj, s, t, m) {
                    lemma_within_mono(adj, s, t, m, level);
                }
            }
        }
    }
}

/// With an empty frontier nothing lies further than `level` edges from `s`.
proof fn lemma_exhausted(
    adj: Map<Vertex, Set<Vertex>>,
    s: Vertex,
    d: Map<Vertex, usize>,
    level: nat,
    t: Vertex,
    n: nat,
)
    requires
        level_map(adj, s, d, level),
        forall|u: Vertex| #[trigger] d.contains_key(u) ==> d[u] != level,
        reachable_within(adj, s, t, n),
    ensures
        d.contains_key(t),
    decreases n,
{
    if n <= level {
        lemma_within_mono(adj, s, t, n, level);
    } else if reachable_within(adj, s, t, (n - 1) as nat) {
        lemma_exhausted(adj, s, d, level, t, (n - 1) as nat);
    } else {
        let w = choose|w: Vertex| #[trigger] is_edge(adj, w, t) && reachable_within(adj, s, w, (n - 1) as nat);
        lemma_exhausted(adj, s, d, level, w, (n - 1) as nat);
        let dw = d[w] as nat;
        assert(reachable_within(adj, s, t, dw + 1));
        lemma_within_mono(adj, s, t, dw + 1, level);
    }
}

/// Hop distances from `start` to every vertex reachable from it, by a
/// level-by-level breadth-first traversal. `start` is always present, at
/// distance 0; a vertex that is absent is unreachable.
pub fn bfs_distances(graph: &AdjacencyList, start: Vertex) -> (r: HashMap<Vertex, usize>)
    requires
        graph.wf(),
    ensures
        is_distance_map(graph@, start, r@),
        r@.contains_key(start),
        r@[start] == 0,
{
    let ghost adj = graph@;
    let mut distances: HashMap<Vertex, usize> = HashMap::new();
    distances.insert(start, 0);
    let first = graph.neighbors(start);
    if first.len() == 0 {
        proof {
            let c = set![start];
            assert forall|x: Vertex, y: Vertex| c.contains(x) && #[trigger] is_edge(adj, x, y) implies c.contains(y) by {
                assert(first@.contains(y));
            }
            assert forall|t: Vertex| #[trigger] distances@.contains_key(t) <==> reachable(adj, start, t) by {
                if reachable(adj, start, t) {
                    let n = choose|n: nat| reachable_within(adj, start, t, n);
                    lemma_closed_holds_reachable(adj, c, start, t, n);
                }
                assert(reachable_within(adj, start, start, 0));
            }
            assert(is_distance(adj, start, start, 0));
        }
        return distances;
    }
    let total = graph.len();
    proof {
        graph.lemma_order();
        assert(first@.contains(first@[0]));
        assert(adj.contains_key(start));
        assert(distances@.dom() =~= set![start]);
        assert(reachable_within(adj, start, start, 0));
        assert(is_distance(adj, start, start, 0));
    }
    let mut frontier: Vec<Vertex> = Vec::new();
    frontier.push(start);
    let mut level: usize = 0;
    proof {
        assert(frontier@[0] == start);
        assert forall|t: Vertex| #[trigger] frontier@.contains(t) <==> distances@.contains_key(t) && distances@[t] == 0 by {
            if frontier@.contains(t) {
                let p = choose|p: int| 0 <= p < frontier@.len() && frontier@[p] == t;
            }
        }
    }
    while frontier.len() > 0
        invariant
            graph.wf(),
            adj == graph@,
            adj.contains_key(start),
            adj.dom().finite(),
            total == adj.dom().len(),
            level_map(adj, start, distances@, level as nat),
            frontier_of(frontier@, distances@, level as nat),
            frontier@.no_duplicates(),
            distances@.dom().subset_of(adj.dom()),
            level + (total - distances@.dom().len() + frontier@.len()) <= total,
        decreases total - distances@.dom().len() + frontier@.len(),
    {
        proof {
            vstd::set_lib::lemma_len_subset(distances@.dom(), adj.dom());
            frontier@.unique_seq_to_set();
            assert(frontier@.to_set().subset_of(distances@.dom()));
            vstd::set_lib::lemma_len_subset(frontier@.to_set(), distances@.dom());
        }
        let ghost d0 = distances@;
        let mut next: Vec<Vertex> = Vec::new();
        let mut i: usize = 0;
        while i < frontier.len()
            invariant
                graph.wf(),
                adj == graph@,
                level < total,
                total == adj.dom().len(),
                i <= frontier@.len(),
                level_map(adj, start, d0, level as nat),
                frontier_of(frontier@, d0, level as nat),
                d0.dom().subset_of(adj.dom()),
                distances@.dom().subset_of(adj.dom()),
                forall|t: Vertex| #[trigger] distances@.contains_key(t) <==> d0.contains_key(t) || touched(adj, frontier@, i as int, t),
                forall|t: Vertex| #[trigger] distances@.contains_key(t) && !d0.contains_key(t) ==> distances@[t] == level + 1,
                forall|t: Vertex| #[trigger] d0.contains_key(t) ==> distances@[t] == d0[t],
                forall|t: Vertex| #[trigger] next@.contains(t) <==> distances@.contains_key(t) && !d0.contains_key(t),
                next@.no_duplicates(),
                distances@.dom().len() == d0.dom().len() + next@.len(),
            decreases frontier@.len() - i,
        {
            let u = frontier[i];
            let nbrs = graph.neighbors(u);
            let mut j: usize = 0;
            while j < nbrs.len()
                invariant
                    graph.wf(),
                    adj == graph@,
                    level < total,
                    i < frontier@.len(),
                    u == frontier@[i as int],
                    j <= nbrs@.len(),
                    forall|v: Vertex| #[trigger] nbrs@.contains(v) <==> is_edge(adj, u, v),
                    d0.dom().subset_of(adj.dom()),
                    distances@.dom().subset_of(adj.dom()),
                    forall|t: Vertex| #[trigger] distances@.contains_key(t) <==> d0.contains_key(t)
                        || touched(adj, frontier@, i as int, t)
                        || exists|q: int| 0 <= q < j && nbrs@[q] == t,
                    forall|t: Vertex| #[trigger] distances@.contains_key(t) && !d0.contains_key(t) ==> distances@[t] == level + 1,
                    forall|t: Vertex| #[trigger] d0.contains_key(t) ==> distances@[t] == d0[t],
                    forall|t: Vertex| #[trigger] next@.contains(t) <==> distances@.contains_key(t) && !d0.contains_key(t),
                    next@.no_duplicates(),
                    distances@.dom().len() == d0.dom().len() + next@.len(),
                decreases nbrs@.len() - j,
            {
                let w = nbrs[j];
                proof {
                    assert(nbrs@.contains(w));
                    assert(is_edge(adj, w, u));
                }
                if !distances.contains_key(&w) {
                    let ghost dprev = distances@;
                    let ghost nprev = next@;
                    distances.insert(w, level + 1);
                    next.push(w);
                    proof {
                        assert forall|t: Vertex| #[trigger] next@.contains(t) <==> nprev.contains(t) || t == w by {
                            if nprev.contains(t) {
                                let p = choose|p: int| 0 <= p < nprev.len() && nprev[p] == t;
                                assert(next@[p] == t);
                            }
                            if t == w {
                                assert(next@[nprev.len() as int] == t);
                            }
                        }
                        assert(!nprev.contains(w));
                    }
                }
                proof {
                    assert forall|t: Vertex| #[trigger] distances@.contains_key(t) <==> d0.contains_key(t)
                        || touched(adj, frontier@, i as int, t)
                        || exists|q: int| 0 <= q < j + 1 && nbrs@[q] == t by {
                        if t == w {
                            assert(nbrs@[j as int] == t);
                        }
                        if exists|q: int| 0 <= q < j + 1 && nbrs@[q] == t {
                            let q = choose|q: int| 0 <= q < j + 1 && nbrs@[q] == t;
                            if q < j {
                                assert(exists|q: int| 0 <= q < j && nbrs@[q] == t);
                            }
                        }
                    }
                }
                j = j + 1;
            }
            proof {
                assert forall|t: Vertex| #[trigger] distances@.contains_key(t) <==> d0.contains_key(t)
                    || touched(adj, frontier@, i + 1, t) by {
                    if touched(adj, frontier@, i + 1, t) {
                        let p = choose|p: int| 0 <= p < i + 1 && #[trigger] is_edge(adj, frontier@[p], t);
                        if p == i {
                            assert(nbrs@.contains(t));
                            let q = choose|q: int| 0 <= q < nbrs@.len() && nbrs@[q] == t;
                        } else {
                            assert(touched(adj, frontier@, i as int, t));
                        }
                    }
                    if exists|q: int| 0 <= q < nbrs@.len() && nbrs@[q] == t {
                        let q = choose|q: int| 0 <= q < nbrs@.len() && nbrs@[q] == t;
                        assert(nbrs@.contains(t));
                        assert(is_edge(adj, frontier@[i as int], t));
                    }
                    if touched(adj, frontier@, i as int, t) {
                        let p = choose|p: int| 0 <= p < i && #[trigger] is_edge(adj, frontier@[p], t);
                        assert(is_edge(adj, frontier@[p], t));
                    }
                }
            }
            i = i + 1;
        }
        proof {
            lemma_level_step(adj, start, d0, distances@, frontier@, level as nat);
            assert forall|t: Vertex| #[trigger] next@.contains(t) <==> distances@.contains_key(t) && distances@[t] == level + 1 by {
                if distances@.contains_key(t) && d0.contains_key(t) {
                    assert(d0[t] <= level);
                }
            }
        }
        frontier = next;
        level = level + 1;
    }
    proof {
        assert forall|t: Vertex| #[trigger] distances@.contains_key(t) <==> reachable(adj, start, t) by {
            if reachable(adj, start, t) {
                let n = choose|n: nat| reachable_within(adj, start, t, n);
                assert forall|u: Vertex| #[trigger] distances@.contains_key(u) implies distances@[u] != level by {
                    if distances@[u] == level {
                        assert(frontier@.contains(u));
                    }
                }
                lemma_exhausted(adj, start, distances@, level as nat, t, n);
            }
        }
    }
    distances
}

/// Hop distances are symmetric: the search from `u` reaches `v` exactly when
/// the search from `v` reaches `u`, and then at the same distance.
pub proof fn lemma_distances_symmetric(
    graph: AdjacencyList,
    u: Vertex,
    v: Vertex,
    du: Map<Vertex, usize>,
    dv: Map<Vertex, usize>,
)
    requires
        graph.wf(),
        is_distance_map(graph@, u, du),
        is_distance_map(graph@, v, dv),
    ensures
        du.contains_key(v) <==> dv.contains_key(u),
        du.contains_key(v) ==> du[v] == dv[u],
{
    let adj = graph@;
    if du.contains_key(v) {
        let n = choose|n: nat| reachable_within(adj, u, v, n);
        lemma_within_symmetric(adj, u, v, n);
    }
    if dv.contains_key(u) {
        let n = choose|n: nat| reachable_within(adj, v, u, n);
        lemma_within_symmetric(adj, v, u, n);
        assert(du.contains_key(v));
        let a = du[v] as nat;
        let b = dv[u] as nat;
        lemma_within_symmetric(adj, u, v, a);
        lemma_within_symmetric(adj, v, u, b);
        if a < b {
            assert(!reachable_within(adj, v, u, a));
        }
        if b < a {
            assert(!reachable_within(adj, u, v, b));
        }
    }
}

} // verus!
