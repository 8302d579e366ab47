//! The dependency graph over code-element identities.
//!
//! Nodes are element identities; a directed edge `(a, b)` means that
//! `a` must appear before `b` in the reordered output.  The builder
//! applies the linear-chain policy: consecutive elements in extraction
//! order receive an edge from the earlier to the later one.  This is a
//! deliberate, documented stand-in for true reference inference.

use vstd::prelude::*;

verus! {

/// Directed graph over element identities.
pub struct DependencyGraph {
    pub nodes: Vec<usize>,
    pub edges: Vec<(usize, usize)>,
}

/// Well-formedness: nodes are distinct, every edge joins two distinct
/// graph nodes.
pub open spec fn wf_graph(nodes: Seq<usize>, edges: Seq<(usize, usize)>) -> bool {
    &&& nodes.no_duplicates()
    &&& forall|k: int|
        0 <= k < edges.len() ==> nodes.contains(#[trigger] edges[k].0) && nodes.contains(
            edges[k].1,
        ) && edges[k].0 != edges[k].1
}

/// The edges the linear-chain policy produces for a given node sequence:
/// one edge per adjacent pair, in order.
pub open spec fn chain_edges(nodes: Seq<usize>) -> Seq<(usize, usize)> {
    Seq::new(if nodes.len() == 0 { 0 } else { (nodes.len() - 1) as nat }, |k: int| (nodes[k], nodes[k + 1]))
}

impl DependencyGraph {
    pub open spec fn wf(self) -> bool {
        wf_graph(self.nodes@, self.edges@)
    }
}

/// Builds the dependency graph for the given identities under the
/// linear-chain policy: the node set is exactly the identity sequence,
/// and each identity receives an edge to its successor.
///
/// The identities must be strictly increasing, which the extractor
/// guarantees (they are derived from line positions).
pub fn build_graph(identities: &Vec<usize>) -> (g: DependencyGraph)
    requires
        forall|i: int, j: int| 0 <= i < j < identities@.len() ==> identities@[i] < identities@[j],
    ensures
        g.nodes@ == identities@,
        g.edges@ == chain_edges(identities@),
        g.wf(),
{
    let n = identities.len();
    let mut edges: Vec<(usize, usize)> = Vec::new();
    let mut i: usize = 0;
    while i + 1 < n
        invariant
            n == identities@.len(),
            i <= n,
            n > 0 ==> i <= n - 1,
            edges@.len() == i,
            forall|k: int| 0 <= k < i ==> edges@[k] == (identities@[k], identities@[k + 1]),
            forall|t: int, j: int| 0 <= t < j < identities@.len() ==> identities@[t] < identities@[j],
        decreases n - i,
    {
        edges.push((identities[i], identities[i + 1]));
        i = i + 1;
    }
    proof {
        assert(edges@ =~= chain_edges(identities@));
        assert(identities@.no_duplicates());
        assert forall|k: int| 0 <= k < edges@.len() implies identities@.contains(
            #[trigger] edges@[k].0,
        ) && identities@.contains(edges@[k].1) && edges@[k].0 != edges@[k].1 by {
            assert(edges@[k].0 == identities@[k]);
            assert(edges@[k].1 == identities@[k + 1]);
        }
    }
    DependencyGraph { nodes: identities.clone(), edges }
}

} // verus!
