//! The capability traits a problem must expose to be searched, together with
//! the mathematical model of walks, reachability and walk costs that the
//! search algorithms' contracts are stated over.

use vstd::prelude::*;
use vstd::std_specs::cmp::PartialEqSpec;

verus! {

/// The executable equality of a node type agrees with mathematical equality.
///
/// Every graph implementation must establish this for its node type (see
/// [`Graph::node_eq_agrees`]); the search algorithms rely on it whenever they
/// compare two nodes.
pub open spec fn node_eq_facts<N: PartialEq>() -> bool {
    &&& N::obeys_eq_spec()
    &&& forall|a: N, b: N| #[trigger] a.eq_spec(&b) <==> a == b
}

/// The contract a problem must satisfy to be searched: node and edge
/// identity, adjacency, and a goal predicate.
///
/// The graph is immutable from a searcher's perspective; algorithms consume
/// it only through these operations. `spec_nodes` lists a finite universe
/// that adjacency stays inside; it is what makes every search terminate on
/// graphs with finitely many nodes.
pub trait Graph: Sized {
    type Node: Copy + PartialEq + Eq;
    type Edge: Copy + PartialEq + Eq;

    /// The designated starting node of this graph.
    spec fn spec_root() -> Self::Node;

    /// A finite enumeration of every node the graph can reach.
    spec fn spec_nodes(&self) -> Seq<Self::Node>;

    /// Outgoing adjacency of `node`, in the order that drives sibling
    /// tie-breaks in the uninformed searches.
    spec fn spec_children(&self, node: Self::Node) -> Seq<Self::Node>;

    /// Outgoing edges of `node`.
    spec fn spec_edges(&self, node: Self::Node) -> Seq<Self::Edge>;

    /// The goal predicate.
    spec fn spec_is_goal(&self, node: Self::Node) -> bool;

    /// Executable node equality must mean node identity.
    proof fn node_eq_agrees()
        ensures
            node_eq_facts::<Self::Node>(),
    ;

    /// Adjacency never leaves the node universe.
    proof fn children_in_nodes(&self)
        ensures
            forall|n: Self::Node, c: Self::Node|
                #[trigger] self.spec_children(n).contains(c) ==> self.spec_nodes().contains(c),
    ;

    fn root() -> (r: Self::Node)
        ensures
            r == Self::spec_root(),
    ;

    fn children(&self, node: Self::Node) -> (r: Vec<Self::Node>)
        ensures
            r@ == self.spec_children(node),
    ;

    fn edges(&self, node: Self::Node) -> (r: Vec<Self::Edge>)
        ensures
            r@ == self.spec_edges(node),
    ;

    fn is_goal(&self, node: Self::Node) -> (r: bool)
        ensures
            r == self.spec_is_goal(node),
    ;
}

/// A walk through the graph: a non-empty node sequence in which every
/// consecutive pair is joined by an edge.
pub open spec fn is_walk<G: Graph>(g: G, p: Seq<G::Node>) -> bool {
    &&& p.len() >= 1
    &&& forall|i: int|
        0 <= i < p.len() - 1 ==> (#[trigger] g.spec_children(p[i])).contains(p[i + 1])
}

/// A walk that starts at `from` and ends at `to`.
pub open spec fn connects<G: Graph>(g: G, p: Seq<G::Node>, from: G::Node, to: G::Node) -> bool {
    &&& is_walk(g, p)
    &&& p[0] == from
    &&& p[p.len() - 1] == to
}

/// `to` can be reached from `from` by following edges.
pub open spec fn reachable<G: Graph>(g: G, from: G::Node, to: G::Node) -> bool {
    exists|p: Seq<G::Node>| connects(g, p, from, to)
}

/// `to` is reachable from `from` along a walk with at most `k` edges.
pub open spec fn dist_at_most<G: Graph>(g: G, from: G::Node, to: G::Node, k: int) -> bool {
    exists|p: Seq<G::Node>| connects(g, p, from, to) && p.len() <= k + 1
}

/// A one-node walk connects a node to itself.
pub proof fn lemma_connects_trivial<G: Graph>(g: G, n: G::Node)
    ensures
        connects(g, seq![n], n, n),
        reachable(g, n, n),
{
    let p = seq![n];
    assert(is_walk(g, p));
}

/// Extending a walk by an edge out of its last node yields a walk.
pub proof fn lemma_connects_extend<G: Graph>(
    g: G,
    p: Seq<G::Node>,
    from: G::Node,
    to: G::Node,
    c: G::Node,
)
    requires
        connects(g, p, from, to),
        g.spec_children(to).contains(c),
    ensures
        connects(g, p.push(c), from, c),
        reachable(g, from, c),
{
    let q = p.push(c);
    assert forall|i: int| 0 <= i < q.len() - 1 implies #[trigger] g.spec_children(q[i]).contains(
        q[i + 1],
    ) by {
        if i < p.len() - 1 {
            assert(g.spec_children(p[i]).contains(p[i + 1]));
        } else {
            assert(q[i] == to && q[i + 1] == c);
        }
    }
    assert(connects(g, q, from, c));
}

/// Prefixing a walk with an edge into its first node yields a walk.
pub proof fn lemma_connects_prepend<G: Graph>(
    g: G,
    p: Seq<G::Node>,
    from: G::Node,
    to: G::Node,
    x: G::Node,
)
    requires
        connects(g, p, from, to),
        g.spec_children(x).contains(from),
    ensures
        connects(g, seq![x] + p, x, to),
        reachable(g, x, to),
{
    let q = seq![x] + p;
    assert(q[0] == x);
    assert(q.len() == p.len() + 1);
    assert forall|i: int| 0 <= i < q.len() - 1 implies (#[trigger] g.spec_children(q[i])).contains(
        q[i + 1],
    ) by {
        if i == 0 {
            assert(q[1] == p[0]);
        } else {
            let j = i - 1;
            assert(q[i] == p[j] && q[i + 1] == p[j + 1]);
            assert(g.spec_children(p[j]).contains(p[j + 1]));
        }
    }
    assert(q[q.len() - 1] == p[p.len() - 1]);
    assert(connects(g, q, x, to));
}

/// A set that contains the start of a walk and is closed under adjacency
/// contains the end of the walk.
pub proof fn lemma_walk_stays_in_closed_set<G: Graph>(g: G, s: Set<G::Node>, p: Seq<G::Node>)
    requires
        is_walk(g, p),
        s.contains(p[0]),
        forall|n: G::Node, c: G::Node|
            s.contains(n) && #[trigger] g.spec_children(n).contains(c) ==> s.contains(c),
    ensures
        s.contains(p[p.len() - 1]),
    decreases p.len(),
{
    if p.len() > 1 {
        let q = p.subrange(1, p.len() as int);
        assert(g.spec_children(p[0]).contains(p[1]));
        assert forall|i: int| 0 <= i < q.len() - 1 implies #[trigger] g.spec_children(
            q[i],
        ).contains(q[i + 1]) by {
            let j = i + 1;
            assert(q[i] == p[j] && q[i + 1] == p[j + 1]);
            assert(g.spec_children(p[j]).contains(p[j + 1]));
        }
        lemma_walk_stays_in_closed_set(g, s, q);
        assert(q[q.len() - 1] == p[p.len() - 1]);
    }
}

/// Nothing outside a set that contains `from` and is closed under adjacency
/// is reachable from `from`.
pub proof fn lemma_closed_set_bounds_reachable<G: Graph>(
    g: G,
    s: Set<G::Node>,
    from: G::Node,
    to: G::Node,
)
    requires
        reachable(g, from, to),
        s.contains(from),
        forall|n: G::Node, c: G::Node|
            s.contains(n) && #[trigger] g.spec_children(n).contains(c) ==> s.contains(c),
    ensures
        s.contains(to),
{
    let p = choose|p: Seq<G::Node>| connects(g, p, from, to);
    lemma_walk_stays_in_closed_set(g, s, p);
}



/// Any walk can be shortened to one without repeated nodes by cutting each
/// cycle out of it.
pub proof fn lemma_walk_without_repeats<G: Graph>(g: G, p: Seq<G::Node>, from: G::Node, to: G::Node)
    requires
        connects(g, p, from, to),
    ensures
        exists|q: Seq<G::Node>|
            connects(g, q, from, to) && q.len() <= p.len() && q.no_duplicates(),
    decreases p.len(),
{
    if p.no_duplicates() {
        assert(connects(g, p, from, to) && p.len() <= p.len() && p.no_duplicates());
    } else {
        let (i, j) = choose|i: int, j: int| 0 <= i < j < p.len() && p[i] == p[j];
        let q = p.subrange(0, i + 1) + p.subrange(j + 1, p.len() as int);
        assert(q.len() == i + 1 + (p.len() - j - 1) < p.len());
        assert(q[0] == p[0]);
        assert forall|ii: int| 0 <= ii < q.len() - 1 implies (#[trigger] g.spec_children(
            q[ii],
        )).contains(q[ii + 1]) by {
            if ii < i {
                assert(q[ii] == p[ii] && q[ii + 1] == p[ii + 1]);
                assert(g.spec_children(p[ii]).contains(p[ii + 1]));
            } else if ii == i {
                assert(q[ii] == p[i] && p[i] == p[j]);
                assert(q[ii + 1] == p[j + 1]);
                assert(g.spec_children(p[j]).contains(p[j + 1]));
            } else {
                let jj = j + (ii - i);
                assert(q[ii] == p[jj] && q[ii + 1] == p[jj + 1]);
                assert(g.spec_children(p[jj]).contains(p[jj + 1]));
            }
        }
        if j == p.len() - 1 {
            assert(q[q.len() - 1] == p[i]);
            assert(p[i] == p[j]);
        } else {
            assert(q[q.len() - 1] == p[p.len() - 1]);
        }
        assert(connects(g, q, from, to));
        lemma_walk_without_repeats(g, q, from, to);
        let w = choose|w: Seq<G::Node>|
            connects(g, w, from, to) && w.len() <= q.len() && w.no_duplicates();
        assert(w.len() <= p.len());
    }
}

/// A reachable node is reachable along a walk of at most one node more than
/// the graph lists: a duplicate-free walk cannot outgrow the universe. This
/// is how plain reachability discharges the bounded-walk demand of the
/// iterative-deepening searcher on any graph whose node listing leaves room
/// for the start.
pub proof fn lemma_reachable_within_universe<G: Graph>(g: G, from: G::Node, to: G::Node)
    requires
        reachable(g, from, to),
    ensures
        exists|p: Seq<G::Node>|
            connects(g, p, from, to) && p.len() <= g.spec_nodes().len() + 1,
{
    g.children_in_nodes();
    let p0 = choose|p: Seq<G::Node>| connects(g, p, from, to);
    lemma_walk_without_repeats(g, p0, from, to);
    let q = choose|q: Seq<G::Node>|
        connects(g, q, from, to) && q.len() <= p0.len() && q.no_duplicates();
    let bound = g.spec_nodes().to_set().insert(from);
    vstd::seq_lib::seq_to_set_is_finite::<G::Node>(g.spec_nodes());
    assert forall|i: int| 0 <= i < q.len() implies bound.contains(#[trigger] q[i]) by {
        if i > 0 {
            assert(g.spec_children(q[i - 1]).contains(q[i]));
        }
    }
    assert forall|n: G::Node| #[trigger] q.to_set().contains(n) implies bound.contains(n) by {
        let i = choose|i: int| 0 <= i < q.len() && q[i] == n;
        assert(bound.contains(q[i]));
    }
    q.unique_seq_to_set();
    vstd::set_lib::lemma_len_subset(q.to_set(), bound);
    assert(bound.len() <= g.spec_nodes().to_set().len() + 1);
    g.spec_nodes().lemma_cardinality_of_set();
    assert(q.len() <= g.spec_nodes().len() + 1);
}

/// The set of nodes reachable from `root`.
pub open spec fn reach_set<G: Graph>(g: G, root: G::Node) -> Set<G::Node> {
    Set::new(|n: G::Node| reachable(g, root, n))
}

/// However a search explores, a visited set that stays within what is
/// reachable from the root can never outnumber the reachable nodes: the
/// bound every tracked run's distinct-node count obeys.
pub proof fn lemma_visited_bounded_by_reachable<G: Graph>(
    g: G,
    root: G::Node,
    visited: Set<G::Node>,
)
    requires
        visited.finite(),
        forall|m: G::Node| #[trigger] visited.contains(m) ==> reachable(g, root, m),
    ensures
        reach_set(g, root).finite(),
        visited.len() <= reach_set(g, root).len(),
{
    g.children_in_nodes();
    let rs = reach_set(g, root);
    let bound = g.spec_nodes().to_set().insert(root);
    vstd::seq_lib::seq_to_set_is_finite::<G::Node>(g.spec_nodes());
    assert forall|n: G::Node| #[trigger] rs.contains(n) implies bound.contains(n) by {
        let p = choose|p: Seq<G::Node>| connects(g, p, root, n);
        if p.len() == 1 {
            assert(n == root);
        } else {
            let i = p.len() - 2;
            assert(g.spec_children(p[i]).contains(p[i + 1]));
            assert(g.spec_nodes().contains(n));
        }
    }
    assert(rs.subset_of(bound));
    vstd::set_lib::lemma_set_subset_finite(bound, rs);
    assert forall|m: G::Node| #[trigger] visited.contains(m) implies rs.contains(m) by {}
    assert(visited.subset_of(rs));
    vstd::set_lib::lemma_len_subset(visited, rs);
}

/// The cost of a walk: the sum of the edge weights along it.
pub open spec fn walk_cost<G: WeightedGraph>(g: G, p: Seq<G::Node>) -> int
    decreases p.len(),
{
    if p.len() <= 1 {
        0
    } else {
        g.spec_edge_weight(p[0], p[1]) + walk_cost(g, p.subrange(1, p.len() as int))
    }
}

/// Walk costs are sums of non-negative weights, so they are non-negative.
pub proof fn lemma_walk_cost_nonneg<G: WeightedGraph>(g: G, p: Seq<G::Node>)
    ensures
        walk_cost(g, p) >= 0,
    decreases p.len(),
{
    g.edge_weights_in_range();
    if p.len() > 1 {
        lemma_walk_cost_nonneg(g, p.subrange(1, p.len() as int));
    }
}

/// A walk's cost is its shorter front's cost plus the final edge.
pub proof fn lemma_walk_cost_drop_last<G: WeightedGraph>(g: G, p: Seq<G::Node>)
    requires
        p.len() >= 2,
    ensures
        walk_cost(g, p) == walk_cost(g, p.drop_last()) + g.spec_edge_weight(
            p[p.len() - 2],
            p[p.len() - 1],
        ),
{
    lemma_walk_cost_prefix_extend(g, p, p.len() - 2);
    assert(p.subrange(0, p.len() as int) =~= p);
    assert(p.subrange(0, p.len() - 1) =~= p.drop_last());
}

/// A walk's cost splits at any of its nodes into the cost up to it and the
/// cost of the rest.
pub proof fn lemma_walk_cost_split<G: WeightedGraph>(g: G, p: Seq<G::Node>, j: int)
    requires
        0 <= j < p.len(),
    ensures
        walk_cost(g, p) == walk_cost(g, p.subrange(0, j + 1)) + walk_cost(
            g,
            p.subrange(j, p.len() as int),
        ),
    decreases p.len() - j,
{
    if j == p.len() - 1 {
        assert(p.subrange(0, p.len() as int) =~= p);
        assert(p.subrange(j, p.len() as int).len() == 1);
    } else {
        lemma_walk_cost_split(g, p, j + 1);
        lemma_walk_cost_prefix_extend(g, p, j);
        let tail_j = p.subrange(j, p.len() as int);
        assert(tail_j.len() >= 2);
        assert(tail_j[0] == p[j] && tail_j[1] == p[j + 1]);
        assert(tail_j.subrange(1, tail_j.len() as int) =~= p.subrange(j + 1, p.len() as int));
    }
}

/// A graph whose edges carry non-negative integer weights, as the cost-aware
/// algorithms require.
pub trait WeightedGraph: Graph {
    /// The weight of the edge from `from` to `to`.
    spec fn spec_edge_weight(&self, from: Self::Node, to: Self::Node) -> int;

    /// Every weight is non-negative and representable.
    proof fn edge_weights_in_range(&self)
        ensures
            forall|a: Self::Node, b: Self::Node|
                0 <= #[trigger] self.spec_edge_weight(a, b) <= i64::MAX,
    ;

    fn edge_weight(&self, from: Self::Node, to: Self::Node) -> (r: i64)
        ensures
            r as int == self.spec_edge_weight(from, to),
    ;
}

/// The cost of a node sequence through `g`: the sum of the edge weights along
/// it.
pub fn path_cost<G: WeightedGraph>(g: &G, path: &Vec<G::Node>) -> (r: i64)
    requires
        walk_cost(*g, path@) <= i64::MAX,
    ensures
        r as int == walk_cost(*g, path@),
{
    proof {
        g.edge_weights_in_range();
    }
    let mut total: i64 = 0;
    let n = path.len();
    if n == 0 {
        return 0;
    }
    proof {
        assert(path@.subrange(0, n as int) =~= path@);
    }
    let mut i: usize = 0;
    while i < n - 1
        invariant
            n == path@.len(),
            n >= 1,
            0 <= i <= n - 1,
            total >= 0,
            walk_cost(*g, path@) <= i64::MAX,
            total as int == walk_cost(*g, path@.subrange(0, i + 1)),
            total as int + walk_cost(*g, path@.subrange(i as int, n as int)) == walk_cost(
                *g,
                path@,
            ),
            forall|a: G::Node, b: G::Node| 0 <= #[trigger] g.spec_edge_weight(a, b) <= i64::MAX,
        decreases n - i,
    {
        let w = g.edge_weight(path[i], path[i + 1]);
        proof {
            let tail = path@.subrange(i as int, n as int);
            assert(tail.len() >= 2);
            assert(tail[0] == path@[i as int] && tail[1] == path@[i + 1]);
            assert(tail.subrange(1, tail.len() as int) == path@.subrange(i + 1, n as int));
            lemma_walk_cost_nonneg(*g, path@.subrange(i + 1, n as int));
            lemma_walk_cost_prefix_extend(*g, path@, i as int);
        }
        total = total + w;
        i = i + 1;
    }
    proof {
        assert(path@.subrange(0, n as int) == path@);
    }
    total
}

/// Summing one more edge onto a walk prefix matches the recursive cost.
pub proof fn lemma_walk_cost_prefix_extend<G: WeightedGraph>(g: G, p: Seq<G::Node>, i: int)
    requires
        0 <= i < p.len() - 1,
    ensures
        walk_cost(g, p.subrange(0, i + 2)) == walk_cost(g, p.subrange(0, i + 1))
            + g.spec_edge_weight(p[i], p[i + 1]),
    decreases i,
{
    if i == 0 {
        let q = p.subrange(0, 2);
        assert(q.subrange(1, 2) =~= seq![p[1]]);
        assert(walk_cost(g, q.subrange(1, 2)) == 0);
    } else {
        let a = p.subrange(0, i + 2);
        let b = p.subrange(0, i + 1);
        let pt = p.subrange(1, p.len() as int);
        assert(a.subrange(1, a.len() as int) =~= pt.subrange(0, i + 1));
        assert(b.subrange(1, b.len() as int) =~= pt.subrange(0, i));
        lemma_walk_cost_prefix_extend(g, pt, i - 1);
        assert(pt[i - 1] == p[i] && pt[i] == p[i + 1]);
    }
}

/// `n` is reachable from `root` by a walk that costs no more than any walk
/// from `root` to any goal: what the cost-aware searches promise of the
/// node they return.
pub open spec fn optimally_reachable<G: WeightedGraph>(g: G, root: G::Node, n: G::Node) -> bool {
    exists|p: Seq<G::Node>|
        connects(g, p, root, n) && (forall|q: Seq<G::Node>, m: G::Node|
            #![trigger connects(g, q, root, m)]
            connects(g, q, root, m) && g.spec_is_goal(m) ==> walk_cost(g, q) >= walk_cost(g, p))
}

/// Two walks that each reach a goal at a cost no greater than any walk to
/// any goal cost the same: the sense in which any two cost-optimal searches
/// agree on the cost of what they return.
pub proof fn lemma_equally_optimal_walks_cost_alike<G: WeightedGraph>(
    g: G,
    root: G::Node,
    p1: Seq<G::Node>,
    m1: G::Node,
    p2: Seq<G::Node>,
    m2: G::Node,
)
    requires
        connects(g, p1, root, m1),
        g.spec_is_goal(m1),
        connects(g, p2, root, m2),
        g.spec_is_goal(m2),
        forall|q: Seq<G::Node>, m: G::Node|
            #![trigger connects(g, q, root, m)]
            connects(g, q, root, m) && g.spec_is_goal(m) ==> walk_cost(g, q) >= walk_cost(g, p1),
        forall|q: Seq<G::Node>, m: G::Node|
            #![trigger connects(g, q, root, m)]
            connects(g, q, root, m) && g.spec_is_goal(m) ==> walk_cost(g, q) >= walk_cost(g, p2),
    ensures
        walk_cost(g, p1) == walk_cost(g, p2),
{
    assert(walk_cost(g, p2) >= walk_cost(g, p1));
    assert(walk_cost(g, p1) >= walk_cost(g, p2));
}

/// A graph that additionally estimates the remaining cost from a node to a
/// goal, as A* and greedy best-first search require.
pub trait HeuristicGraph: Graph {
    /// The heuristic estimate at `node`.
    spec fn spec_heuristic(&self, node: Self::Node) -> int;

    fn heuristic(&self, node: Self::Node) -> (r: i64)
        ensures
            r as int == self.spec_heuristic(node),
    ;
}

} // verus!
