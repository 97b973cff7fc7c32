//! Random sampling of vertex pairs for distance queries.
use rand::rngs::StdRng;
use rand::seq::SliceRandom;
use crate::graph::{Edge, GraphError, Vertex};
use vstd::prelude::*;

verus! {

/// The seedable random generator of rand.
#[verifier::external_type_specification]
#[verifier::external_body]
pub struct ExStdRng(StdRng);

/// `r` consists of elements of `nodes` taken at the distinct positions `pos`.
pub open spec fn taken_at(nodes: Seq<Vertex>, r: Seq<Vertex>, pos: Seq<int>) -> bool {
    &&& pos.len() == r.len()
    &&& pos.no_duplicates()
    &&& forall|k: int| 0 <= k < pos.len() ==> 0 <= #[trigger] pos[k] < nodes.len() && nodes[pos[k]] == r[k]
}

/// Relies on rand's `SliceRandom::choose_multiple` on slices: it yields
/// `min(amount, len)` elements read at distinct positions of the slice
/// (drawn by `rand::seq::index::sample`).
#[verifier::external_body]
fn choose_multiple(nodes: &[Vertex], rng: &mut StdRng, amount: usize) -> (r: Vec<Vertex>)
    ensures
        r@.len() == if amount < nodes@.len() { amount as int } else { nodes@.len() as int },
        exists|pos: Seq<int>| #[trigger] taken_at(nodes@, r@, pos),
{
    nodes.choose_multiple(rng, amount).cloned().collect()
}

/// Draws `num_pairs` pairs of vertices; each pair holds two distinct vertices
/// of `nodes`, drawn independently of the other pairs. Fewer than two
/// vertices give `InsufficientVertices`.
pub fn pair_up_nodes(nodes: Vec<Vertex>, num_pairs: usize, rng: &mut StdRng) -> (r: Result<
    Vec<Edge>,
    GraphError,
>)
    requires
        nodes@.no_duplicates(),
    ensures
        r is Err <==> nodes@.len() < 2,
        r is Err ==> r == Err::<Vec<Edge>, GraphError>(GraphError::InsufficientVertices),
        r matches Ok(p) ==> p@.len() == num_pairs && forall|k: int|
            0 <= k < p@.len() ==> nodes@.contains(#[trigger] p@[k].0) && nodes@.contains(p@[k].1)
                && p@[k].0 != p@[k].1,
{
    if nodes.len() < 2 {
        return Err(GraphError::InsufficientVertices);
    }
    let mut pairs: Vec<Edge> = Vec::new();
    while pairs.len() < num_pairs
        invariant
            nodes@.no_duplicates(),
            nodes@.len() >= 2,
            pairs@.len() <= num_pairs,
            forall|k: int|
                0 <= k < pairs@.len() ==> nodes@.contains(#[trigger] pairs@[k].0) && nodes@.contains(
                    pairs@[k].1,
                ) && pairs@[k].0 != pairs@[k].1,
        decreases num_pairs - pairs@.len(),
    {
        let selected = choose_multiple(nodes.as_slice(), rng, 2);
        let ghost pos = choose|pos: Seq<int>| #[trigger] taken_at(nodes@, selected@, pos);
        let a = selected[0];
        let b = selected[1];
        proof {
            assert(0 <= pos[0] < nodes@.len() && nodes@[pos[0]] == a);
            assert(0 <= pos[1] < nodes@.len() && nodes@[pos[1]] == b);
            assert(pos[0] != pos[1]);
        }
        let ghost before = pairs@;
        pairs.push((a, b));
        proof {
            assert forall|k: int| 0 <= k < pairs@.len() implies nodes@.contains(#[trigger] pairs@[k].0)
                && nodes@.contains(pairs@[k].1) && pairs@[k].0 != pairs@[k].1 by {
                if k < before.len() {
                    assert(pairs@[k] == before[k]);
                }
            }
        }
    }
    Ok(pairs)
}

} // verus!
