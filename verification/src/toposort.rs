//! Topological ordering of a dependency graph, with sound and complete
//! cycle detection.
//!
//! The sorter repeatedly places the first not-yet-placed node (in node
//! order) all of whose predecessors are already placed.  On an acyclic
//! graph this yields a total order consistent with every edge, with
//! ties broken by node order; if no node can be placed the graph has a
//! cycle and the sorter reports it without producing partial output.

use vstd::prelude::*;
use crate::graph::wf_graph;

verus! {

/// The reorder stage cannot proceed: the graph has a cycle.
#[derive(Clone, Copy, Debug, PartialEq, Eq, Structural)]
pub struct CycleDetected;

/// The pair `(a, b)` is an edge of the graph.
pub open spec fn edge_in(edges: Seq<(usize, usize)>, a: usize, b: usize) -> bool {
    exists|k: int| 0 <= k < edges.len() && edges[k] == (a, b)
}

/// `p` walks along edges of the graph.
pub open spec fn is_path(p: Seq<usize>, edges: Seq<(usize, usize)>) -> bool {
    forall|i: int| 0 <= i < p.len() - 1 ==> edge_in(edges, #[trigger] p[i], p[i + 1])
}

/// Some nonempty walk returns to its starting node.
pub open spec fn has_cycle(edges: Seq<(usize, usize)>) -> bool {
    exists|p: Seq<usize>| p.len() >= 2 && p.first() == p.last() && is_path(p, edges)
}

/// Every edge that ends at a placed node starts at an earlier placed node.
pub open spec fn placed_closed(order: Seq<usize>, edges: Seq<(usize, usize)>) -> bool {
    forall|k: int, j: int|
        #![trigger edges[k], order[j]]
        0 <= k < edges.len() && 0 <= j < order.len() && order[j] == edges[k].1 ==> exists|i: int|
            0 <= i < j && order[i] == edges[k].0
}

/// Node `nodes[t]` is not yet placed but all of its predecessors are.
pub open spec fn eligible(
    nodes: Seq<usize>,
    edges: Seq<(usize, usize)>,
    order: Seq<usize>,
    t: int,
) -> bool {
    &&& !order.contains(nodes[t])
    &&& forall|k: int|
        0 <= k < edges.len() && (#[trigger] edges[k]).1 == nodes[t] ==> order.contains(edges[k].0)
}

fn contains_id(v: &Vec<usize>, x: usize) -> (r: bool)
    ensures
        r == v@.contains(x),
{
    let mut i: usize = 0;
    while i < v.len()
        invariant
            i <= v@.len(),
            forall|j: int| 0 <= j < i ==> v@[j] != x,
        decreases v@.len() - i,
    {
        if v[i] == x {
            return true;
        }
        i = i + 1;
    }
    false
}

/// True iff every edge into `node` starts at an already placed node.
fn preds_placed(edges: &Vec<(usize, usize)>, order: &Vec<usize>, node: usize) -> (r: bool)
    ensures
        r == forall|k: int|
            0 <= k < edges@.len() && (#[trigger] edges@[k]).1 == node ==> order@.contains(
                edges@[k].0,
            ),
{
    let mut k: usize = 0;
    while k < edges.len()
        invariant
            k <= edges@.len(),
            forall|t: int|
                0 <= t < k && (#[trigger] edges@[t]).1 == node ==> order@.contains(edges@[t].0),
        decreases edges@.len() - k,
    {
        if edges[k].1 == node {
            if !contains_id(order, edges[k].0) {
                return false;
            }
        }
        k = k + 1;
    }
    true
}

/// First node (in node order) that can be placed next, if any.
fn find_eligible(nodes: &Vec<usize>, edges: &Vec<(usize, usize)>, order: &Vec<usize>) -> (r:
    Option<usize>)
    ensures
        match r {
            Some(t) => 0 <= t < nodes@.len() && eligible(nodes@, edges@, order@, t as int)
                && forall|u: int| 0 <= u < t ==> !eligible(nodes@, edges@, order@, u),
            None => forall|u: int| 0 <= u < nodes@.len() ==> !eligible(nodes@, edges@, order@, u),
        },
{
    let mut t: usize = 0;
    while t < nodes.len()
        invariant
            t <= nodes@.len(),
            forall|u: int| 0 <= u < t ==> !eligible(nodes@, edges@, order@, u),
        decreases nodes@.len() - t,
    {
        if !contains_id(order, nodes[t]) && preds_placed(edges, order, nodes[t]) {
            return Some(t);
        }
        t = t + 1;
    }
    None
}

/// A walk of any requested positive length can be built inside a set in
/// which every node has a predecessor in the set.
proof fn build_trapped_path(
    edges: Seq<(usize, usize)>,
    s: Set<usize>,
    m: nat,
) -> (p: Seq<usize>)
    requires
        m >= 1,
        s.finite(),
        s.len() >= 1,
        forall|x: usize| s.contains(x) ==> exists|k: int|
            0 <= k < edges.len() && (#[trigger] edges[k]).1 == x && s.contains(edges[k].0),
    ensures
        p.len() == m,
        is_path(p, edges),
        forall|i: int| 0 <= i < p.len() ==> s.contains(#[trigger] p[i]),
    decreases m,
{
    broadcast use vstd::set::group_set_axioms;

    if m == 1 {
        assert(exists|a: usize| s.contains(a)) by {
            if !(exists|a: usize| s.contains(a)) {
                assert(s =~= Set::<usize>::empty());
            }
        }
        let x = choose|a: usize| s.contains(a);
        assert(s.contains(x));
        let p = seq![x];
        assert(is_path(p, edges));
        p
    } else {
        let q = build_trapped_path(edges, s, (m - 1) as nat);
        let h = q[0];
        assert(s.contains(h));
        let k = choose|k: int|
            0 <= k < edges.len() && (#[trigger] edges[k]).1 == h && s.contains(edges[k].0);
        let a = edges[k].0;
        let p = seq![a] + q;
        assert(p[0] == a);
        assert forall|i: int| 0 <= i < p.len() - 1 implies edge_in(edges, #[trigger] p[i], p[i + 1]) by {
            if i == 0 {
                assert(p[1] == q[0]);
                assert(edges[k] == (a, h));
            } else {
                assert(p[i] == q[i - 1]);
                assert(p[i + 1] == q[i]);
                assert(edge_in(edges, q[i - 1], q[i]));
            }
        }
        p
    }
}

/// A sequence longer than the finite set that holds all its elements
/// repeats an element.
proof fn lemma_pigeonhole(p: Seq<usize>, s: Set<usize>) -> (r: (int, int))
    requires
        s.finite(),
        p.len() > s.len(),
        forall|i: int| 0 <= i < p.len() ==> s.contains(#[trigger] p[i]),
    ensures
        0 <= r.0 < r.1 < p.len(),
        p[r.0] == p[r.1],
{
    broadcast use vstd::seq_lib::group_seq_properties;

    if exists|i: int, j: int| 0 <= i < j < p.len() && p[i] == p[j] {
        let (i, j) = choose|i: int, j: int| 0 <= i < j < p.len() && p[i] == p[j];
        (i, j)
    } else {
        assert(p.no_duplicates());
        p.unique_seq_to_set();
        assert forall|x: usize| p.to_set().contains(x) implies s.contains(x) by {
            assert(p.contains(x));
        }
        vstd::set_lib::lemma_len_subset(p.to_set(), s);
        assert(false);
        (0, 0)
    }
}

/// If every node of a nonempty finite set keeps a predecessor inside the
/// set, the graph has a cycle.
proof fn lemma_trapped_set_has_cycle(edges: Seq<(usize, usize)>, s: Set<usize>)
    requires
        s.finite(),
        s.len() >= 1,
        forall|x: usize| s.contains(x) ==> exists|k: int|
            0 <= k < edges.len() && (#[trigger] edges[k]).1 == x && s.contains(edges[k].0),
    ensures
        has_cycle(edges),
{
    let p = build_trapped_path(edges, s, s.len() + 1);
    let (i, j) = lemma_pigeonhole(p, s);
    let c = p.subrange(i, j + 1);
    assert(c.len() >= 2);
    assert(c.first() == p[i]);
    assert(c.last() == p[j]);
    assert forall|t: int| 0 <= t < c.len() - 1 implies edge_in(edges, #[trigger] c[t], c[t + 1]) by {
        assert(c[t] == p[i + t]);
        assert(c[t + 1] == p[i + t + 1]);
        assert(edge_in(edges, p[i + t], p[i + t + 1]));
    }
    assert(has_cycle(edges)) by {
        assert(c.len() >= 2 && c.first() == c.last() && is_path(c, edges));
    }
}

/// Position of `x` in `order`, where `order` contains `x`.
pub open spec fn pos_of(order: Seq<usize>, x: usize) -> int {
    choose|i: int| 0 <= i < order.len() && order[i] == x
}

proof fn lemma_pos_of(order: Seq<usize>, x: usize)
    requires
        order.contains(x),
    ensures
        0 <= pos_of(order, x) < order.len(),
        order[pos_of(order, x)] == x,
{
}

/// Along any path of a graph whose edges all point forward in `order`,
/// positions strictly increase.
proof fn lemma_path_positions(p: Seq<usize>, order: Seq<usize>, edges: Seq<(usize, usize)>)
    requires
        is_path(p, edges),
        p.len() >= 2,
        forall|k: int|
            0 <= k < edges.len() ==> order.contains((#[trigger] edges[k]).0) && order.contains(
                edges[k].1,
            ),
        placed_closed(order, edges),
        order.no_duplicates(),
    ensures
        order.contains(p.first()),
        order.contains(p.last()),
        pos_of(order, p.first()) < pos_of(order, p.last()),
    decreases p.len(),
{
    let k = choose|k: int| 0 <= k < edges.len() && edges[k] == (p[0], p[1]);
    assert(edge_in(edges, p[0], p[1]));
    assert(order.contains(p[0]) && order.contains(p[1]));
    let i0 = pos_of(order, p[0]);
    let i1 = pos_of(order, p[1]);
    lemma_pos_of(order, p[0]);
    lemma_pos_of(order, p[1]);
    // placed_closed gives an occurrence of p[0] before i1; distinctness
    // makes it the occurrence at i0.
    assert(order[i1] == edges[k].1);
    let i = choose|i: int| 0 <= i < i1 && order[i] == edges[k].0;
    assert(order[i] == p[0] && order[i0] == p[0]);
    assert(i == i0);
    assert(i0 < i1);
    if p.len() == 2 {
    } else {
        let q = p.subrange(1, p.len() as int);
        assert forall|t: int| 0 <= t < q.len() - 1 implies edge_in(edges, #[trigger] q[t], q[t + 1]) by {
            assert(q[t] == p[t + 1]);
            assert(q[t + 1] == p[t + 2]);
            assert(edge_in(edges, p[t + 1], p[t + 2]));
        }
        lemma_path_positions(q, order, edges);
        assert(q.first() == p[1]);
        assert(q.last() == p.last());
    }
}

/// A complete order that respects every edge rules cycles out.
proof fn lemma_order_excludes_cycle(order: Seq<usize>, edges: Seq<(usize, usize)>)
    requires
        forall|k: int|
            0 <= k < edges.len() ==> order.contains((#[trigger] edges[k]).0) && order.contains(
                edges[k].1,
            ),
        placed_closed(order, edges),
        order.no_duplicates(),
    ensures
        !has_cycle(edges),
{
    if has_cycle(edges) {
        let p = choose|p: Seq<usize>| p.len() >= 2 && p.first() == p.last() && is_path(p, edges);
        lemma_path_positions(p, order, edges);
        assert(pos_of(order, p.first()) < pos_of(order, p.last()));
        assert(false);
    }
}

proof fn lemma_incr_lower(f: spec_fn(int) -> int, n: int, t: int)
    requires
        0 <= t < n,
        forall|u: int| 0 <= u < n ==> 0 <= #[trigger] f(u) < n,
        forall|u: int| 0 <= u < n - 1 ==> #[trigger] f(u) < f(u + 1),
    ensures
        f(t) >= t,
    decreases t,
{
    if t > 0 {
        lemma_incr_lower(f, n, t - 1);
        assert(f(t - 1) < f(t));
    }
}

proof fn lemma_incr_upper(f: spec_fn(int) -> int, n: int, t: int)
    requires
        0 <= t < n,
        forall|u: int| 0 <= u < n ==> 0 <= #[trigger] f(u) < n,
        forall|u: int| 0 <= u < n - 1 ==> #[trigger] f(u) < f(u + 1),
    ensures
        f(t) <= t,
    decreases n - t,
{
    if t < n - 1 {
        lemma_incr_upper(f, n, t + 1);
        assert(f(t) < f(t + 1));
    }
}

/// Under the linear-chain edge policy the chain itself is the one total
/// order consistent with the edges: any duplicate-free order over the
/// same nodes that places each edge's source before its target equals
/// the node sequence.  In particular the sorter's output equals the
/// original extraction order.
pub proof fn lemma_chain_order_unique(order: Seq<usize>, nodes: Seq<usize>)
    requires
        nodes.no_duplicates(),
        order.len() == nodes.len(),
        order.no_duplicates(),
        forall|x: usize| order.contains(x) <==> nodes.contains(x),
        forall|k: int, i: int, j: int|
            #![trigger crate::graph::chain_edges(nodes)[k], order[i], order[j]]
            0 <= k < crate::graph::chain_edges(nodes).len() && 0 <= i < order.len() && 0 <= j
                < order.len() && order[i] == crate::graph::chain_edges(nodes)[k].0 && order[j]
                == crate::graph::chain_edges(nodes)[k].1 ==> i < j,
    ensures
        order == nodes,
{
    let n = nodes.len() as int;
    let f = |t: int| pos_of(order, nodes[t]);
    assert forall|u: int| 0 <= u < n implies 0 <= #[trigger] f(u) < n && order[f(u)] == nodes[u] by {
        assert(nodes.contains(nodes[u]));
        assert(order.contains(nodes[u]));
        lemma_pos_of(order, nodes[u]);
    }
    assert forall|u: int| 0 <= u < n - 1 implies #[trigger] f(u) < f(u + 1) by {
        assert(crate::graph::chain_edges(nodes)[u] == (nodes[u], nodes[u + 1]));
        assert(order[f(u)] == nodes[u]);
        assert(order[f(u + 1)] == nodes[u + 1]);
    }
    assert forall|t: int| 0 <= t < n implies order[t] == nodes[t] by {
        lemma_incr_lower(f, n, t);
        lemma_incr_upper(f, n, t);
        assert(f(t) == t);
        assert(order[f(t)] == nodes[t]);
    }
    assert(order =~= nodes);
}

proof fn lemma_forward_path_values(p: Seq<usize>, edges: Seq<(usize, usize)>)
    requires
        is_path(p, edges),
        p.len() >= 2,
        forall|k: int| 0 <= k < edges.len() ==> (#[trigger] edges[k]).0 < edges[k].1,
    ensures
        p.first() < p.last(),
    decreases p.len(),
{
    let k = choose|k: int| 0 <= k < edges.len() && edges[k] == (p[0], p[1]);
    assert(edge_in(edges, p[0], p[1]));
    assert(p[0] < p[1]);
    if p.len() > 2 {
        let q = p.subrange(1, p.len() as int);
        assert forall|t: int| 0 <= t < q.len() - 1 implies edge_in(edges, #[trigger] q[t], q[t + 1]) by {
            assert(q[t] == p[t + 1]);
            assert(q[t + 1] == p[t + 2]);
            assert(edge_in(edges, p[t + 1], p[t + 2]));
        }
        lemma_forward_path_values(q, edges);
    }
}

/// A graph whose every edge goes from a smaller to a larger identity is
/// acyclic; the chain built over strictly increasing identities is such
/// a graph, so the reorder stage is owed success on it.
pub proof fn lemma_increasing_edges_acyclic(edges: Seq<(usize, usize)>)
    requires
        forall|k: int| 0 <= k < edges.len() ==> (#[trigger] edges[k]).0 < edges[k].1,
    ensures
        !has_cycle(edges),
{
    if has_cycle(edges) {
        let p = choose|p: Seq<usize>| p.len() >= 2 && p.first() == p.last() && is_path(p, edges);
        lemma_forward_path_values(p, edges);
        assert(false);
    }
}

/// Ties are broken by node order: whenever an entry of the order
/// stands later than another entry that follows it in the node
/// sequence, some edge into the later entry was still unsatisfied when
/// the earlier one was placed.  An entry thus overtakes an earlier
/// node-order position only when an edge forces it, which makes the
/// greedy choice behind the order explicit in the contract.
pub open spec fn first_eligible_rule(
    nodes: Seq<usize>,
    edges: Seq<(usize, usize)>,
    order: Seq<usize>,
) -> bool {
    forall|i: int, j: int|
        #![trigger order[i], order[j]]
        0 <= i < j < order.len() && pos_of(nodes, order[j]) < pos_of(nodes, order[i])
            ==> exists|k: int|
            0 <= k < edges.len() && (#[trigger] edges[k]).1 == order[j] && !order.subrange(
                0,
                i,
            ).contains(edges[k].0)
}

/// Every node not yet placed that stands before some placed entry in
/// the node sequence was skipped for a reason: an edge into it was
/// still unsatisfied when that entry was placed.
spec fn skipped_rule(nodes: Seq<usize>, edges: Seq<(usize, usize)>, order: Seq<usize>) -> bool {
    forall|i: int, p: int|
        #![trigger order[i], nodes[p]]
        0 <= i < order.len() && 0 <= p < nodes.len() && !order.contains(nodes[p]) && p < pos_of(
            nodes,
            order[i],
        ) ==> exists|k: int|
            0 <= k < edges.len() && (#[trigger] edges[k]).1 == nodes[p] && !order.subrange(
                0,
                i,
            ).contains(edges[k].0)
}

proof fn lemma_pos_of_index(nodes: Seq<usize>, t: int)
    requires
        nodes.no_duplicates(),
        0 <= t < nodes.len(),
    ensures
        pos_of(nodes, nodes[t]) == t,
{
    assert(nodes.contains(nodes[t]));
    lemma_pos_of(nodes, nodes[t]);
}

proof fn lemma_first_diff(r1: Seq<usize>, r2: Seq<usize>) -> (i: int)
    requires
        r1.len() == r2.len(),
        r1 != r2,
    ensures
        0 <= i < r1.len(),
        r1[i] != r2[i],
        forall|t: int| 0 <= t < i ==> r1[t] == r2[t],
    decreases r1.len(),
{
    if r1.len() == 0 {
        assert(r1 =~= r2);
        0
    } else if r1[0] != r2[0] {
        0
    } else {
        let t1 = r1.drop_first();
        let t2 = r2.drop_first();
        if t1 == t2 {
            assert forall|t: int| 0 <= t < r1.len() implies r1[t] == r2[t] by {
                if t > 0 {
                    assert(t1[t - 1] == r1[t]);
                    assert(t2[t - 1] == r2[t]);
                }
            }
            assert(r1 =~= r2);
        }
        let j = lemma_first_diff(t1, t2);
        assert(r1[j + 1] == t1[j]);
        assert(r2[j + 1] == t2[j]);
        assert forall|t: int| 0 <= t < j + 1 implies r1[t] == r2[t] by {
            if t > 0 {
                assert(r1[t] == t1[t - 1]);
                assert(r2[t] == t2[t - 1]);
            }
        }
        j + 1
    }
}

/// The sorter's contract determines its output: any two duplicate-free
/// orders over the graph's nodes that both respect every edge and both
/// break ties by node order are equal.  Determinism across runs on the
/// same input follows for any implementation that meets the contract.
pub proof fn lemma_order_unique(
    nodes: Seq<usize>,
    edges: Seq<(usize, usize)>,
    r1: Seq<usize>,
    r2: Seq<usize>,
)
    requires
        nodes.no_duplicates(),
        r1.len() == nodes.len(),
        r2.len() == nodes.len(),
        r1.no_duplicates(),
        r2.no_duplicates(),
        forall|x: usize| r1.contains(x) <==> nodes.contains(x),
        forall|x: usize| r2.contains(x) <==> nodes.contains(x),
        placed_closed(r1, edges),
        placed_closed(r2, edges),
        first_eligible_rule(nodes, edges, r1),
        first_eligible_rule(nodes, edges, r2),
    ensures
        r1 == r2,
{
    if r1 != r2 {
        let i = lemma_first_diff(r1, r2);
        let a = r1[i];
        let b = r2[i];
        assert(r1.contains(a) && r2.contains(b));
        assert(nodes.contains(a) && nodes.contains(b));
        assert(r2.contains(a) && r1.contains(b));
        lemma_pos_of(nodes, a);
        lemma_pos_of(nodes, b);
        assert(pos_of(nodes, a) != pos_of(nodes, b)) by {
            assert(nodes[pos_of(nodes, a)] == a);
            assert(nodes[pos_of(nodes, b)] == b);
        }
        assert(r1.subrange(0, i) =~= r2.subrange(0, i));
        if pos_of(nodes, a) < pos_of(nodes, b) {
            // a overtook its node-order position in r2, so an edge into
            // a was unsatisfied there; but r1 placed a at i with every
            // edge into it satisfied inside the common prefix.
            lemma_pos_of(r2, a);
            let q2 = pos_of(r2, a);
            assert(r2[q2] == a);
            assert(q2 > i) by {
                if q2 < i {
                    assert(r1[q2] == r2[q2]);
                    assert(r1[q2] == a && r1[i] == a);
                }
            }
            assert(r2[i] == b && r2[q2] == a);
            let k = choose|k: int|
                0 <= k < edges.len() && (#[trigger] edges[k]).1 == a && !r2.subrange(
                    0,
                    i,
                ).contains(edges[k].0);
            assert(r1[i] == edges[k].1);
            let i2 = choose|i2: int| 0 <= i2 < i && r1[i2] == edges[k].0;
            assert(r1.subrange(0, i)[i2] == edges[k].0);
            assert(r2.subrange(0, i).contains(edges[k].0));
            assert(false);
        } else {
            lemma_pos_of(r1, b);
            let q2 = pos_of(r1, b);
            assert(r1[q2] == b);
            assert(q2 > i) by {
                if q2 < i {
                    assert(r2[q2] == r1[q2]);
                    assert(r2[q2] == b && r2[i] == b);
                }
            }
            assert(r1[i] == a && r1[q2] == b);
            let k = choose|k: int|
                0 <= k < edges.len() && (#[trigger] edges[k]).1 == b && !r1.subrange(
                    0,
                    i,
                ).contains(edges[k].0);
            assert(r2[i] == edges[k].1);
            let i2 = choose|i2: int| 0 <= i2 < i && r2[i2] == edges[k].0;
            assert(r2.subrange(0, i)[i2] == edges[k].0);
            assert(r1.subrange(0, i).contains(edges[k].0));
            assert(false);
        }
    }
}

/// Computes a total order of the graph's nodes consistent with all
/// edges, or reports that the graph has a cycle.
///
/// On success the result is a permutation of the node sequence that
/// places the source of every edge strictly before its target, with
/// ties broken by node order; success is owed exactly on the
/// cycle-free graphs, and on failure no partial order is produced.
pub fn topo_sort(nodes: &Vec<usize>, edges: &Vec<(usize, usize)>) -> (r: Result<
    Vec<usize>,
    CycleDetected,
>)
    requires
        wf_graph(nodes@, edges@),
    ensures
        match r {
            Ok(order) => {
                &&& order@.len() == nodes@.len()
                &&& order@.no_duplicates()
                &&& forall|x: usize| order@.contains(x) <==> nodes@.contains(x)
                &&& forall|k: int, i: int, j: int|
                    #![trigger edges@[k], order@[i], order@[j]]
                    0 <= k < edges@.len() && 0 <= i < order@.len() && 0 <= j < order@.len()
                        && order@[i] == edges@[k].0 && order@[j] == edges@[k].1 ==> i < j
                &&& placed_closed(order@, edges@)
                &&& first_eligible_rule(nodes@, edges@, order@)
                &&& !has_cycle(edges@)
            },
            Err(_) => has_cycle(edges@),
        },
{
    broadcast use vstd::seq_lib::group_seq_properties;

    let n = nodes.len();
    let mut order: Vec<usize> = Vec::new();
    while order.len() < n
        invariant
            wf_graph(nodes@, edges@),
            n == nodes@.len(),
            order@.len() <= n,
            order@.no_duplicates(),
            forall|j: int| 0 <= j < order@.len() ==> nodes@.contains(#[trigger] order@[j]),
            placed_closed(order@, edges@),
            skipped_rule(nodes@, edges@, order@),
            first_eligible_rule(nodes@, edges@, order@),
        decreases n - order@.len(),
    {
        match find_eligible(nodes, edges, &order) {
            Some(t) => {
                let x = nodes[t];
                proof {
                    assert(eligible(nodes@, edges@, order@, t as int));
                    let old_order = order@;
                    assert forall|k: int, j: int|
                        #![trigger edges@[k], old_order.push(x)[j]]
                        0 <= k < edges@.len() && 0 <= j < old_order.push(x).len()
                            && old_order.push(x)[j] == edges@[k].1 implies exists|i: int|
                        0 <= i < j && old_order.push(x)[i] == edges@[k].0 by {
                        if j < old_order.len() {
                            assert(old_order[j] == edges@[k].1);
                            let i = choose|i: int| 0 <= i < j && old_order[i] == edges@[k].0;
                            assert(old_order.push(x)[i] == edges@[k].0);
                        } else {
                            assert(old_order.push(x)[j] == x);
                            assert(edges@[k].1 == nodes@[t as int]);
                            assert(old_order.contains(edges@[k].0));
                            let i = choose|i: int|
                                0 <= i < old_order.len() && old_order[i] == edges@[k].0;
                            assert(old_order.push(x)[i] == edges@[k].0);
                        }
                    }
                    // the skipped rule and the tie-break rule survive
                    // the placement
                    lemma_pos_of_index(nodes@, t as int);
                    let newo = old_order.push(x);
                    assert forall|i: int, p: int|
                        #![trigger newo[i], nodes@[p]]
                        0 <= i < newo.len() && 0 <= p < nodes@.len() && !newo.contains(nodes@[p])
                            && p < pos_of(nodes@, newo[i]) implies exists|k: int|
                        0 <= k < edges@.len() && (#[trigger] edges@[k]).1 == nodes@[p]
                            && !newo.subrange(0, i).contains(edges@[k].0) by {
                        if old_order.contains(nodes@[p]) {
                            let q = choose|q: int|
                                0 <= q < old_order.len() && old_order[q] == nodes@[p];
                            assert(newo[q] == nodes@[p]);
                            assert(newo.contains(nodes@[p]));
                        }
                        if i < old_order.len() {
                            assert(newo[i] == old_order[i]);
                            let k = choose|k: int|
                                0 <= k < edges@.len() && (#[trigger] edges@[k]).1 == nodes@[p]
                                    && !old_order.subrange(0, i).contains(edges@[k].0);
                            assert(newo.subrange(0, i) =~= old_order.subrange(0, i));
                            assert(!newo.subrange(0, i).contains(edges@[k].0));
                        } else {
                            assert(newo[i] == x);
                            assert(p < t);
                            assert(!eligible(nodes@, edges@, old_order, p));
                            assert(!old_order.contains(nodes@[p]));
                            let k = choose|k: int|
                                0 <= k < edges@.len() && (#[trigger] edges@[k]).1 == nodes@[p]
                                    && !old_order.contains(edges@[k].0);
                            assert(newo.subrange(0, i) =~= old_order);
                            assert(!newo.subrange(0, i).contains(edges@[k].0));
                        }
                    }
                    assert forall|i: int, j: int|
                        #![trigger newo[i], newo[j]]
                        0 <= i < j < newo.len() && pos_of(nodes@, newo[j]) < pos_of(
                            nodes@,
                            newo[i],
                        ) implies exists|k: int|
                        0 <= k < edges@.len() && (#[trigger] edges@[k]).1 == newo[j]
                            && !newo.subrange(0, i).contains(edges@[k].0) by {
                        assert(newo[i] == old_order[i]);
                        if j < old_order.len() {
                            assert(newo[j] == old_order[j]);
                            let k = choose|k: int|
                                0 <= k < edges@.len() && (#[trigger] edges@[k]).1 == old_order[j]
                                    && !old_order.subrange(0, i).contains(edges@[k].0);
                            assert(newo.subrange(0, i) =~= old_order.subrange(0, i));
                            assert(!newo.subrange(0, i).contains(edges@[k].0));
                        } else {
                            let ti = t as int;
                            assert(newo[j] == x);
                            assert(pos_of(nodes@, x) == ti);
                            assert(!old_order.contains(nodes@[ti]));
                            assert(ti < pos_of(nodes@, old_order[i]));
                            let k = choose|k: int|
                                0 <= k < edges@.len() && (#[trigger] edges@[k]).1 == nodes@[ti]
                                    && !old_order.subrange(0, i).contains(edges@[k].0);
                            assert(newo.subrange(0, i) =~= old_order.subrange(0, i));
                            assert(!newo.subrange(0, i).contains(edges@[k].0));
                        }
                    }
                }
                order.push(x);
            },
            None => {
                proof {
                    broadcast use vstd::seq_lib::seq_to_set_is_finite;
                    broadcast use vstd::set::group_set_axioms;

                    let placed = order@.to_set();
                    let all = nodes@.to_set();
                    let s = all.difference(placed);
                    order@.unique_seq_to_set();
                    nodes@.unique_seq_to_set();
                    // the unplaced set is nonempty
                    assert(placed.subset_of(all));
                    if s.len() == 0 {
                        s.lemma_len0_is_empty();
                        assert forall|x: usize| all.contains(x) implies placed.contains(x) by {
                            assert(!s.contains(x));
                        }
                        assert(all.subset_of(placed));
                        vstd::set_lib::lemma_len_subset(all, placed);
                        assert(false);
                    }
                    // every unplaced node keeps an unplaced predecessor
                    assert forall|x: usize| s.contains(x) implies exists|k: int|
                        0 <= k < edges@.len() && (#[trigger] edges@[k]).1 == x && s.contains(
                            edges@[k].0,
                        ) by {
                        assert(nodes@.contains(x));
                        let t = choose|t: int| 0 <= t < nodes@.len() && nodes@[t] == x;
                        assert(!eligible(nodes@, edges@, order@, t));
                        assert(!order@.contains(x));
                        let k = choose|k: int|
                            0 <= k < edges@.len() && (#[trigger] edges@[k]).1 == nodes@[t]
                                && !order@.contains(edges@[k].0);
                        assert(nodes@.contains(edges@[k].0));
                        assert(s.contains(edges@[k].0));
                    }
                    lemma_trapped_set_has_cycle(edges@, s);
                }
                return Err(CycleDetected);
            },
        }
    }
    proof {
        broadcast use vstd::seq_lib::seq_to_set_is_finite;
        broadcast use vstd::set::group_set_axioms;

        // a full-length duplicate-free selection from the nodes is a
        // permutation of them
        order@.unique_seq_to_set();
        nodes@.unique_seq_to_set();
        assert(order@.to_set().subset_of(nodes@.to_set()));
        vstd::set_lib::lemma_subset_equality(order@.to_set(), nodes@.to_set());
        assert forall|x: usize| order@.contains(x) <==> nodes@.contains(x) by {
            assert(order@.to_set().contains(x) <==> order@.contains(x));
            assert(nodes@.to_set().contains(x) <==> nodes@.contains(x));
        }
        assert forall|k: int, i: int, j: int|
            #![trigger edges@[k], order@[i], order@[j]]
            0 <= k < edges@.len() && 0 <= i < order@.len() && 0 <= j < order@.len() && order@[i]
                == edges@[k].0 && order@[j] == edges@[k].1 implies i < j by {
            assert(order@[j] == edges@[k].1);
            let i2 = choose|i2: int| 0 <= i2 < j && order@[i2] == edges@[k].0;
            assert(i2 == i);
        }
        assert forall|k: int|
            0 <= k < edges@.len() implies order@.contains((#[trigger] edges@[k]).0)
            && order@.contains(edges@[k].1) by {
            assert(nodes@.contains(edges@[k].0));
            assert(nodes@.contains(edges@[k].1));
        }
        lemma_order_excludes_cycle(order@, edges@);
    }
    Ok(order)
}

} // verus!
