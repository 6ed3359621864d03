//! A diagnostic node-counting walk: it exercises the adjacency interface by
//! counting the leaves of the depth-bounded expansion tree below a node,
//! and performs no search.

use vstd::prelude::*;
use crate::graph::Graph;

verus! {

/// The number of leaves of the expansion tree below `node`, cut off at
/// `depth`: a node with no budget or no children counts once, any other
/// node counts what its children count with one budget less.
pub open spec fn perft_count<G: Graph>(g: G, node: G::Node, depth: nat) -> nat
    decreases depth, 0int, 0int,
{
    if depth == 0 || g.spec_children(node).len() == 0 {
        1
    } else {
        perft_sum(g, g.spec_children(node), (depth - 1) as nat)
    }
}

/// The combined leaf count of the expansion trees below each listed node.
pub open spec fn perft_sum<G: Graph>(g: G, cs: Seq<G::Node>, depth: nat) -> nat
    decreases depth, 1int, cs.len(),
{
    if cs.len() == 0 {
        0
    } else {
        perft_count(g, cs[0], depth) + perft_sum(g, cs.drop_first(), depth)
    }
}

/// Count the leaves of the depth-bounded expansion tree below `node`.
pub fn perft<G: Graph>(graph: &G, node: G::Node, depth: usize) -> (r: usize)
    requires
        perft_count(*graph, node, depth as nat) <= usize::MAX,
    ensures
        r == perft_count(*graph, node, depth as nat),
    decreases depth,
{
    let children = graph.children(node);
    if depth == 0 || children.len() == 0 {
        return 1;
    }
    let ghost d: nat = (depth - 1) as nat;
    let n = children.len();
    let mut total: usize = 0;
    let mut k: usize = 0;
    proof {
        assert(children@.subrange(0, n as int) =~= children@);
        assert(perft_count(*graph, node, depth as nat) == perft_sum(*graph, children@, d));
    }
    while k < n
        invariant
            n == children@.len(),
            0 <= k <= n,
            n >= 1,
            depth >= 1,
            d == (depth - 1) as nat,
            children@ == graph.spec_children(node),
            perft_count(*graph, node, depth as nat) == perft_sum(*graph, children@, d),
            perft_count(*graph, node, depth as nat) <= usize::MAX,
            total + perft_sum(*graph, children@.subrange(k as int, n as int), d) == perft_count(
                *graph,
                node,
                depth as nat,
            ),
        decreases n - k,
    {
        proof {
            let tail = children@.subrange(k as int, n as int);
            assert(tail[0] == children@[k as int]);
            assert(tail.drop_first() =~= children@.subrange(k + 1, n as int));
        }
        let part = perft(graph, children[k], depth - 1);
        total = total + part;
        k = k + 1;
    }
    proof {
        assert(children@.subrange(n as int, n as int) =~= Seq::<G::Node>::empty());
    }
    total
}

} // verus!
