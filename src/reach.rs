//! Walks, reachability and hop distances over the model of an adjacency
//! structure, with the facts about them that the algorithms rely on.
use crate::graph::{is_edge, symmetric, Vertex};
use vstd::prelude::*;

verus! {

/// Whether a walk of at most `n` edges leads from `s` to `t`.
pub open spec fn reachable_within(adj: Map<Vertex, Set<Vertex>>, s: Vertex, t: Vertex, n: nat) -> bool
    decreases n,
{
    if n == 0 {
        s == t
    } else {
        reachable_within(adj, s, t, (n - 1) as nat) || exists|u: Vertex|
            #[trigger] is_edge(adj, u, t) && reachable_within(adj, s, u, (n - 1) as nat)
    }
}

/// Whether some walk leads from `s` to `t`.
pub open spec fn reachable(adj: Map<Vertex, Set<Vertex>>, s: Vertex, t: Vertex) -> bool {
    exists|n: nat| reachable_within(adj, s, t, n)
}

/// `n` is the least number of edges on a walk from `s` to `t`.
pub open spec fn is_distance(adj: Map<Vertex, Set<Vertex>>, s: Vertex, t: Vertex, n: nat) -> bool {
    &&& reachable_within(adj, s, t, n)
    &&& forall|m: nat| m < n ==> !#[trigger] reachable_within(adj, s, t, m)
}

/// The vertices reachable from `s`.
pub open spec fn component_of(adj: Map<Vertex, Set<Vertex>>, s: Vertex) -> Set<Vertex> {
    Set::new(|t: Vertex| reachable(adj, s, t))
}

/// `c` is closed under the neighbour relation.
pub open spec fn closed(adj: Map<Vertex, Set<Vertex>>, c: Set<Vertex>) -> bool {
    forall|x: Vertex, y: Vertex| c.contains(x) && #[trigger] is_edge(adj, x, y) ==> c.contains(y)
}

/// A walk of at most `n` edges is also one of at most `m >= n` edges.
pub proof fn lemma_within_mono(adj: Map<Vertex, Set<Vertex>>, s: Vertex, t: Vertex, n: nat, m: nat)
    requires
        n <= m,
        reachable_within(adj, s, t, n),
    ensures
        reachable_within(adj, s, t, m),
    decreases m,
{
    if n < m {
        lemma_within_mono(adj, s, t, n, (m - 1) as nat);
    }
}

/// An edge in front of a walk gives a walk one edge longer.
pub proof fn lemma_prepend(adj: Map<Vertex, Set<Vertex>>, s: Vertex, u: Vertex, t: Vertex, n: nat)
    requires
        is_edge(adj, s, u),
        reachable_within(adj, u, t, n),
    ensures
        reachable_within(adj, s, t, n + 1),
    decreases n,
{
    if n == 0 {
        assert(reachable_within(adj, s, s, 0));
    } else if reachable_within(adj, u, t, (n - 1) as nat) {
        lemma_prepend(adj, s, u, t, (n - 1) as nat);
        lemma_within_mono(adj, s, t, n, n + 1);
    } else {
        let w = choose|w: Vertex|
            #[trigger] is_edge(adj, w, t) && reachable_within(adj, u, w, (n - 1) as nat);
        lemma_prepend(adj, s, u, w, (n - 1) as nat);
    }
}

/// On a symmetric model a walk read backwards is a walk.
pub proof fn lemma_within_symmetric(adj: Map<Vertex, Set<Vertex>>, s: Vertex, t: Vertex, n: nat)
    requires
        symmetric(adj),
        reachable_within(adj, s, t, n),
    ensures
        reachable_within(adj, t, s, n),
    decreases n,
{
    if n > 0 {
        if reachable_within(adj, s, t, (n - 1) as nat) {
            lemma_within_symmetric(adj, s, t, (n - 1) as nat);
        } else {
            let w = choose|w: Vertex|
                #[trigger] is_edge(adj, w, t) && reachable_within(adj, s, w, (n - 1) as nat);
            lemma_within_symmetric(adj, s, w, (n - 1) as nat);
            assert(is_edge(adj, t, w));
            lemma_prepend(adj, t, w, s, (n - 1) as nat);
        }
    }
}

/// Two walks joined end to end make a walk.
pub proof fn lemma_within_trans(
    adj: Map<Vertex, Set<Vertex>>,
    a: Vertex,
    b: Vertex,
    c: Vertex,
    n: nat,
    m: nat,
)
    requires
        reachable_within(adj, a, b, n),
        reachable_within(adj, b, c, m),
    ensures
        reachable_within(adj, a, c, n + m),
    decreases m,
{
    if m > 0 {
        if reachable_within(adj, b, c, (m - 1) as nat) {
            lemma_within_trans(adj, a, b, c, n, (m - 1) as nat);
        } else {
            let w = choose|w: Vertex|
                #[trigger] is_edge(adj, w, c) && reachable_within(adj, b, w, (m - 1) as nat);
            lemma_within_trans(adj, a, b, w, n, (m - 1) as nat);
        }
    }
}

/// A set closed under the neighbour relation holds all that is reachable
/// from its members.
pub proof fn lemma_closed_holds_reachable(
    adj: Map<Vertex, Set<Vertex>>,
    c: Set<Vertex>,
    s: Vertex,
    t: Vertex,
    n: nat,
)
    requires
        closed(adj, c),
        c.contains(s),
        reachable_within(adj, s, t, n),
    ensures
        c.contains(t),
    decreases n,
{
    if n > 0 {
        if reachable_within(adj, s, t, (n - 1) as nat) {
            lemma_closed_holds_reachable(adj, c, s, t, (n - 1) as nat);
        } else {
            let w = choose|w: Vertex|
                #[trigger] is_edge(adj, w, t) && reachable_within(adj, s, w, (n - 1) as nat);
            lemma_closed_holds_reachable(adj, c, s, w, (n - 1) as nat);
        }
    }
}

/// On a symmetric model, what a vertex reaches other than itself lies in the
/// model's domain, and then so does the vertex.
pub proof fn lemma_reach_in_domain(adj: Map<Vertex, Set<Vertex>>, s: Vertex, t: Vertex, n: nat)
    requires
        symmetric(adj),
        reachable_within(adj, s, t, n),
    ensures
        t == s || (adj.contains_key(s) && adj.contains_key(t)),
    decreases n,
{
    if n > 0 {
        if reachable_within(adj, s, t, (n - 1) as nat) {
            lemma_reach_in_domain(adj, s, t, (n - 1) as nat);
        } else {
            let w = choose|w: Vertex|
                #[trigger] is_edge(adj, w, t) && reachable_within(adj, s, w, (n - 1) as nat);
            lemma_reach_in_domain(adj, s, w, (n - 1) as nat);
            assert(is_edge(adj, t, w));
        }
    }
}

} // verus!
