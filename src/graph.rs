//! The adjacency structure of an undirected graph.
use std::collections::{HashMap, HashSet};
use vstd::prelude::*;

verus! {

broadcast use vstd::std_specs::hash::group_hash_axioms;

/// A vertex of the graph: an opaque non-negative identifier.
pub type Vertex = usize;

/// An undirected edge between two vertices.
pub type Edge = (Vertex, Vertex);

/// Whether `(u, v)` is an edge of the model `adj`.
pub open spec fn is_edge(adj: Map<Vertex, Set<Vertex>>, u: Vertex, v: Vertex) -> bool {
    adj.contains_key(u) && adj[u].contains(v)
}

/// Whether `u` is an endpoint of some edge of `edges`.
pub open spec fn mentions(edges: Seq<Edge>, u: Vertex) -> bool {
    exists|i: int| #![trigger edges[i]] 0 <= i < edges.len() && (edges[i].0 == u || edges[i].1 == u)
}

/// Whether `edges` joins `u` and `v`, in either orientation.
pub open spec fn joins(edges: Seq<Edge>, u: Vertex, v: Vertex) -> bool {
    exists|i: int| #![trigger edges[i]] 0 <= i < edges.len() && (edges[i] == (u, v) || edges[i] == (v, u))
}

/// The model is symmetric: every neighbour relation holds in both directions.
pub open spec fn symmetric(adj: Map<Vertex, Set<Vertex>>) -> bool {
    forall|u: Vertex, v: Vertex| #[trigger] is_edge(adj, u, v) ==> is_edge(adj, v, u)
}

/// The adjacency structure: each vertex that occurs in an edge maps to its set
/// of neighbours. Vertices are also kept in order of first appearance, and
/// each neighbour list has a set beside it for membership tests.
pub struct AdjacencyList {
    order: Vec<Vertex>,
    map: HashMap<Vertex, Vec<Vertex>>,
    members: HashMap<Vertex, HashSet<Vertex>>,
}

impl View for AdjacencyList {
    type V = Map<Vertex, Set<Vertex>>;

    closed spec fn view(&self) -> Map<Vertex, Set<Vertex>> {
        self.map@.map_values(|l: Vec<Vertex>| l@.to_set())
    }
}

impl AdjacencyList {
    /// The vertices in order of first appearance.
    pub closed spec fn vertex_order(&self) -> Seq<Vertex> {
        self.order@
    }

    /// The representation invariant: the order lists each key once, no
    /// neighbour list repeats a vertex, and each membership set holds what
    /// its list holds.
    pub closed spec fn inv(&self) -> bool {
        &&& self.order@.no_duplicates()
        &&& forall|k: Vertex| #[trigger] self.members@.contains_key(k) <==> self.map@.contains_key(k)
        &&& forall|k: Vertex| #[trigger]
            self.members@.contains_key(k) ==> self.members@[k]@ == self.map@[k]@.to_set()
        &&& forall|k: Vertex| #[trigger] self.map@.contains_key(k) <==> self.order@.contains(k)
        &&& forall|k: Vertex| #[trigger]
            self.map@.contains_key(k) ==> self.map@[k]@.no_duplicates()
    }

    /// A well-formed adjacency structure: the invariant holds and the
    /// neighbour relation is symmetric.
    pub open spec fn wf(&self) -> bool {
        self.inv() && symmetric(self@)
    }

    /// The vertex order lists each vertex of the model exactly once, and the
    /// model has finitely many vertices.
    pub proof fn lemma_order(&self)
        requires
            self.inv(),
        ensures
            self.vertex_order().no_duplicates(),
            forall|k: Vertex| #[trigger]
                self@.contains_key(k) <==> self.vertex_order().contains(k),
            self@.dom().finite(),
    {
        assert(self@.dom() =~= self.map@.dom());
    }

    /// An empty structure.
    pub fn new() -> (r: AdjacencyList)
        ensures
            r.wf(),
            r@ == Map::<Vertex, Set<Vertex>>::empty(),
            r.vertex_order() == Seq::<Vertex>::empty(),
    {
        let r = AdjacencyList { order: Vec::new(), map: HashMap::new(), members: HashMap::new() };
        assert(r@ =~= Map::<Vertex, Set<Vertex>>::empty());
        r
    }

    /// Records `b` as a neighbour of `a`, creating the entry of `a` if needed.
    fn link(&mut self, a: Vertex, b: Vertex)
        requires
            old(self).inv(),
        ensures
            final(self).inv(),
            final(self)@ == old(self)@.insert(
                a,
                if old(self)@.contains_key(a) {
                    old(self)@[a].insert(b)
                } else {
                    set![b]
                },
            ),
    {
        let ghost before = self@;
        let ghost old_map = self.map@;
        let ghost old_order = self.order@;
        match self.map.remove(&a) {
            Some(list) => {
                let mut list = list;
                let ghost l0 = list@;
                assert(before[a] == l0.to_set());
                let mut set = match self.members.remove(&a) {
                    Some(set) => set,
                    None => HashSet::new(),
                };
                assert(set@ == l0.to_set());
                if set.insert(b) {
                    list.push(b);
                    assert(list@ == l0.push(b));
                    assert(!l0.contains(b));
                    assert forall|x: Vertex| list@.contains(x) <==> l0.contains(x) || x == b by {
                        if l0.contains(x) {
                            let j = choose|j: int| 0 <= j < l0.len() && l0[j] == x;
                            assert(list@[j] == x);
                        }
                        if x == b {
                            assert(list@[l0.len() as int] == x);
                        }
                    }
                }
                assert(list@.to_set() =~= before[a].insert(b));
                assert(set@ =~= list@.to_set());
                self.members.insert(a, set);
                self.map.insert(a, list);
            },
            None => {
                let mut list: Vec<Vertex> = Vec::new();
                list.push(b);
                assert(list@[0] == b);
                assert(list@.to_set() =~= set![b]);
                let mut set: HashSet<Vertex> = HashSet::new();
                set.insert(b);
                assert(set@ =~= list@.to_set());
                self.members.insert(a, set);
                self.map.insert(a, list);
                self.order.push(a);
                assert forall|k: Vertex| self.order@.contains(k) <==> old_order.contains(k) || k == a by {
                    if old_order.contains(k) {
                        let j = choose|j: int| 0 <= j < old_order.len() && old_order[j] == k;
                        assert(self.order@[j] == k);
                    }
                    if k == a {
                        assert(self.order@[old_order.len() as int] == k);
                    }
                }
            },
        }
        assert(self@ =~= before.insert(
            a,
            if before.contains_key(a) {
                before[a].insert(b)
            } else {
                set![b]
            },
        ));
    }

    /// The vertices of the structure, each once, in order of first appearance.
    pub fn vertices(&self) -> (r: Vec<Vertex>)
        requires
            self.inv(),
        ensures
            r@ == self.vertex_order(),
            r@.no_duplicates(),
            forall|k: Vertex| #[trigger] r@.contains(k) <==> self@.contains_key(k),
    {
        self.order.clone()
    }

    /// The number of vertices.
    pub fn len(&self) -> (r: usize)
        requires
            self.inv(),
        ensures
            r == self@.dom().len(),
            r == self.vertex_order().len(),
    {
        proof {
            self.order@.unique_seq_to_set();
            assert(self.order@.to_set() =~= self@.dom());
        }
        self.order.len()
    }

    /// The `i`-th vertex in order of first appearance.
    pub fn vertex_at(&self, i: usize) -> (r: Vertex)
        requires
            self.inv(),
            i < self.vertex_order().len(),
        ensures
            r == self.vertex_order()[i as int],
    {
        self.order[i]
    }

    /// The neighbours of `u`, each once; empty where `u` is not a vertex.
    pub fn neighbors(&self, u: Vertex) -> (r: &[Vertex])
        requires
            self.inv(),
        ensures
            r@.no_duplicates(),
            forall|v: Vertex| #[trigger] r@.contains(v) <==> is_edge(self@, u, v),
            self@.contains_key(u) ==> r@.len() == self@[u].len(),
    {
        match self.map.get(&u) {
            Some(list) => {
                proof {
                    list@.unique_seq_to_set();
                }
                list.as_slice()
            },
            None => &[],
        }
    }
}

/// Builds the adjacency structure of `edges`: its vertices are exactly the
/// endpoints of the edges, and `v` is a neighbour of `u` exactly when some
/// edge joins them, in either orientation.
pub fn build_adjacency_list(edges: &[Edge]) -> (r: AdjacencyList)
    ensures
        r.wf(),
        symmetric(r@),
        forall|u: Vertex| #[trigger] r@.contains_key(u) <==> mentions(edges@, u),
        forall|u: Vertex, v: Vertex| #[trigger] is_edge(r@, u, v) <==> joins(edges@, u, v),
{
    let mut g = AdjacencyList::new();
    let mut i: usize = 0;
    while i < edges.len()
        invariant
            i <= edges@.len(),
            g.inv(),
            forall|u: Vertex| #[trigger]
                g@.contains_key(u) <==> mentions(edges@.subrange(0, i as int), u),
            forall|u: Vertex, v: Vertex| #[trigger]
                is_edge(g@, u, v) <==> joins(edges@.subrange(0, i as int), u, v),
        decreases edges@.len() - i,
    {
        let (u, v) = edges[i];
        let ghost pre = edges@.subrange(0, i as int);
        let ghost post = edges@.subrange(0, i + 1);
        let ghost g0 = g@;
        g.link(u, v);
        let ghost g1 = g@;
        g.link(v, u);
        proof {
            assert forall|x: Vertex, y: Vertex|
                is_edge(g@, x, y) <==> is_edge(g0, x, y) || (x == u && y == v) || (x == v
                    && y == u) by {
                if x == u {
                    assert(g1.contains_key(u));
                }
            }
            assert(post == pre.push((u, v)));
            assert forall|x: Vertex| #[trigger] g@.contains_key(x) <==> mentions(post, x) by {
                if mentions(pre, x) {
                    let j = choose|j: int| 0 <= j < pre.len() && (pre[j].0 == x || pre[j].1 == x);
                    assert(post[j] == pre[j]);
                }
                if mentions(post, x) {
                    let j = choose|j: int| 0 <= j < post.len() && (post[j].0 == x || post[j].1 == x);
                    if j < pre.len() {
                        assert(post[j] == pre[j]);
                    }
                }
                assert(post[i as int] == (u, v));
            }
            assert forall|x: Vertex, y: Vertex| #[trigger]
                is_edge(g@, x, y) <==> joins(post, x, y) by {
                assert(is_edge(g0, x, y) <==> joins(pre, x, y));
                assert(is_edge(g@, x, y) <==> is_edge(g0, x, y) || (x == u && y == v) || (x == v
                    && y == u));
                if joins(pre, x, y) {
                    let j = choose|j: int| 0 <= j < pre.len() && (pre[j] == (x, y) || pre[j] == (y, x));
                    assert(post[j] == pre[j]);
                }
                if joins(post, x, y) {
                    let j = choose|j: int| 0 <= j < post.len() && (post[j] == (x, y) || post[j] == (y, x));
                    if j < pre.len() {
                        assert(post[j] == pre[j]);
                    }
                }
                assert(post[i as int] == (u, v));
            }
        }
        i = i + 1;
    }
    assert(edges@.subrange(0, edges@.len() as int) == edges@);
    assert forall|x: Vertex, y: Vertex| #[trigger] is_edge(g@, x, y) implies is_edge(g@, y, x) by {
        let j = choose|j: int| 0 <= j < edges@.len() && (edges@[j] == (x, y) || edges@[j] == (y, x));
        assert(joins(edges@, y, x));
    }
    g
}

/// Why an analysis could not be carried out.
#[derive(Clone, Copy, Debug, PartialEq, Eq, Structural)]
pub enum GraphError {
    /// The structure has no vertex, so no average is defined.
    EmptyGraph,
    /// Fewer than two vertices to draw a pair from.
    InsufficientVertices,
}

/// The sum of the degrees of the vertices of `vs`.
pub open spec fn degree_sum(adj: Map<Vertex, Set<Vertex>>, vs: Seq<Vertex>) -> int
    decreases vs.len(),
{
    if vs.len() == 0 {
        0
    } else {
        degree_sum(adj, vs.drop_last()) + adj[vs.last()].len()
    }
}

/// The average degree as an exact fraction: `total_degree / vertex_count`.
#[derive(Clone, Copy, Debug, PartialEq, Eq, Structural)]
pub struct DegreeAverage {
    pub total_degree: u128,
    pub vertex_count: usize,
}

/// The mean number of neighbours over the vertices of `graph`, as the sum of
/// the degrees over the number of vertices; an empty structure has none.
pub fn average_degree(graph: &AdjacencyList) -> (r: Result<DegreeAverage, GraphError>)
    requires
        graph.inv(),
    ensures
        r is Err <==> graph@.dom().len() == 0,
        r is Err ==> r == Err::<DegreeAverage, GraphError>(GraphError::EmptyGraph),
        r matches Ok(a) ==> a.vertex_count == graph@.dom().len() && a.total_degree == degree_sum(
            graph@,
            graph.vertex_order(),
        ),
{
    let n = graph.len();
    if n == 0 {
        return Err(GraphError::EmptyGraph);
    }
    proof {
        graph.lemma_order();
    }
    let mut total: u128 = 0;
    let mut i: usize = 0;
    while i < n
        invariant
            graph.inv(),
            n == graph.vertex_order().len(),
            i <= n,
            total == degree_sum(graph@, graph.vertex_order().subrange(0, i as int)),
            total <= i * (usize::MAX as int),
        decreases n - i,
    {
        let u = graph.vertex_at(i);
        proof {
            graph.lemma_order();
            assert(graph.vertex_order().contains(u));
        }
        let d = graph.neighbors(u).len();
        proof {
            let pre = graph.vertex_order().subrange(0, i as int);
            let post = graph.vertex_order().subrange(0, i + 1);
            assert(post.drop_last() == pre);
            assert(post.last() == u);
            assert(total + d <= (i + 1) * (usize::MAX as int)) by (nonlinear_arith)
                requires
                    total <= i * (usize::MAX as int),
                    d <= usize::MAX,
            ;
            assert((i + 1) * (usize::MAX as int) <= (usize::MAX as int) * (usize::MAX as int)) by (nonlinear_arith)
                requires
                    i < usize::MAX,
            ;
        }
        total = total + d as u128;
        i = i + 1;
    }
    assert(graph.vertex_order().subrange(0, n as int) == graph.vertex_order());
    Ok(DegreeAverage { total_degree: total, vertex_count: n })
}

} // verus!
