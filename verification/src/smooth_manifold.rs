//! Smooth manifolds: coordinate charts, and finding the transition maps
//! between two charts of an atlas.
use vstd::prelude::*;

verus! {

/// A coordinate chart mapping an open subset of Rⁿ to the manifold.
#[derive(Clone, Debug)]
pub struct Chart {
    /// Dimension of the chart domain.
    pub dimension: usize,
    /// Human-readable label.
    pub name: String,
}

impl Chart {
    /// A chart of the given dimension with the given label.
    pub fn new(dimension: usize, name: &str) -> (chart: Self)
        ensures
            chart.dimension == dimension,
            chart.name@ == name@,
    {
        Chart { dimension, name: name.to_owned() }
    }
}

/// The positions, in increasing order, of the transitions in `edges` that go
/// from chart i to chart j; each transition is given as (from, to).
pub open spec fn transition_positions(edges: Seq<(usize, usize)>, i: usize, j: usize) -> Seq<usize>
    decreases edges.len(),
{
    if edges.len() == 0 {
        Seq::empty()
    } else {
        let before = transition_positions(edges.drop_last(), i, j);
        if edges.last() == (i, j) {
            before.push((edges.len() - 1) as usize)
        } else {
            before
        }
    }
}

/// The positions listed are exactly those of the transitions from i to j, in
/// increasing order.
pub proof fn lemma_transition_positions(edges: Seq<(usize, usize)>, i: usize, j: usize)
    requires
        edges.len() <= usize::MAX + 1,
    ensures
        forall|k: int|
            0 <= k < transition_positions(edges, i, j).len() ==> #[trigger] transition_positions(edges, i, j)[k]
                < edges.len() && edges[transition_positions(edges, i, j)[k] as int] == (i, j),
        forall|t: int|
            0 <= t < edges.len() && #[trigger] edges[t] == (i, j) ==> transition_positions(edges, i, j).contains(
                t as usize,
            ),
        forall|a: int, b: int|
            0 <= a < b < transition_positions(edges, i, j).len() ==> transition_positions(edges, i, j)[a]
                < transition_positions(edges, i, j)[b],
    decreases edges.len(),
{
    if edges.len() > 0 {
        let e0 = edges.drop_last();
        lemma_transition_positions(e0, i, j);
        let p0 = transition_positions(e0, i, j);
        let p = transition_positions(edges, i, j);
        assert forall|t: int| 0 <= t < edges.len() && #[trigger] edges[t] == (i, j) implies p.contains(t as usize) by {
            if t < edges.len() - 1 {
                assert(e0[t] == edges[t]);
                let k = choose|k: int| 0 <= k < p0.len() && p0[k] == t as usize;
                assert(p[k] == t as usize);
            } else {
                assert(p[p.len() - 1] == t as usize);
            }
        }
        assert forall|k: int| 0 <= k < p.len() implies #[trigger] p[k] < edges.len() && edges[p[k] as int] == (i, j) by {
            if k < p0.len() {
                assert(p[k] == p0[k]);
                assert(e0[p0[k] as int] == edges[p0[k] as int]);
            }
        }
    }
}

/// The positions of the transitions from chart i to chart j among `edges`,
/// each given as (from, to), in the order in which they were added.
pub fn transitions_between(edges: &[(usize, usize)], i: usize, j: usize) -> (found: Vec<usize>)
    ensures
        found@ == transition_positions(edges@, i, j),
        forall|k: int| 0 <= k < found.len() ==> #[trigger] found@[k] < edges.len() && edges@[found@[k] as int] == (i, j),
        forall|t: int| 0 <= t < edges.len() && #[trigger] edges@[t] == (i, j) ==> found@.contains(t as usize),
        forall|a: int, b: int| 0 <= a < b < found.len() ==> found@[a] < found@[b],
{
    proof {
        assert(edges@.len() == edges.len());
        lemma_transition_positions(edges@, i, j);
    }
    let mut found: Vec<usize> = Vec::new();
    let mut t: usize = 0;
    while t < edges.len()
        invariant
            t <= edges.len(),
            found@ == transition_positions(edges@.take(t as int), i, j),
        decreases edges.len() - t,
    {
        proof {
            assert(edges@.take(t + 1).drop_last() =~= edges@.take(t as int));
            assert(edges@.take(t + 1).last() == edges@[t as int]);
        }
        let (from, to) = edges[t];
        if from == i && to == j {
            found.push(t);
        }
        t = t + 1;
    }
    assert(edges@.take(edges.len() as int) =~= edges@);
    found
}

} // verus!
