//! A small fixture graph over integer-identified nodes, used by the test
//! suite and the demonstration driver.

use vstd::prelude::*;
use crate::graph::Graph;
use crate::graph::WeightedGraph;
use crate::graph::HeuristicGraph;
use crate::graph::node_eq_facts;

verus! {

/// A node of the example graph: an opaque integer identity.
#[derive(Clone, Copy, Debug, Eq, Hash)]
pub struct ExampleNode {
    pub id: usize,
}

impl ExampleNode {
    pub fn new(id: usize) -> (r: Self)
        ensures
            r.id == id,
    {
        ExampleNode { id }
    }
}

impl PartialEq for ExampleNode {
    fn eq(&self, other: &Self) -> (r: bool) {
        self.id == other.id
    }
}

impl vstd::std_specs::cmp::PartialEqSpecImpl for ExampleNode {
    open spec fn obeys_eq_spec() -> bool {
        true
    }

    open spec fn eq_spec(&self, other: &ExampleNode) -> bool {
        self.id == other.id
    }
}

/// An edge of the example graph, identified by the ids of its endpoints.
#[derive(Clone, Copy, Debug, Eq, Hash)]
pub struct ExampleEdge {
    pub from_id: usize,
    pub to_id: usize,
}

impl ExampleEdge {
    pub fn new(from_id: usize, to_id: usize) -> (r: Self)
        ensures
            r.from_id == from_id,
            r.to_id == to_id,
    {
        ExampleEdge { from_id, to_id }
    }
}

impl PartialEq for ExampleEdge {
    fn eq(&self, other: &Self) -> (r: bool) {
        self.from_id == other.from_id && self.to_id == other.to_id
    }
}

impl vstd::std_specs::cmp::PartialEqSpecImpl for ExampleEdge {
    open spec fn obeys_eq_spec() -> bool {
        true
    }

    open spec fn eq_spec(&self, other: &ExampleEdge) -> bool {
        self.from_id == other.from_id && self.to_id == other.to_id
    }
}

/// The example graph: explicit node and edge lists, a designated goal id,
/// unit edge weights and a constant heuristic.
pub struct ExampleGraph {
    nodes: Vec<ExampleNode>,
    edges: Vec<ExampleEdge>,
    goal_id: usize,
}

impl ExampleGraph {
    /// Whether the graph holds an edge from `a` to `b`.
    pub open spec fn spec_has_edge(&self, a: ExampleNode, b: ExampleNode) -> bool {
        exists|i: int|
            0 <= i < self.spec_edges_all().len() && self.spec_edges_all()[i].from_id == a.id
                && self.spec_edges_all()[i].to_id == b.id
    }

    pub fn new() -> (r: Self)
        ensures
            r.spec_nodes() == Seq::<ExampleNode>::empty(),
            r.spec_edges_all() == Seq::<ExampleEdge>::empty(),
            forall|n: ExampleNode| #[trigger] r.spec_is_goal(n) <==> n.id == 0,
    {
        ExampleGraph { nodes: Vec::new(), edges: Vec::new(), goal_id: 0 }
    }

    /// All edges the graph holds, in insertion order.
    pub closed spec fn spec_edges_all(&self) -> Seq<ExampleEdge> {
        self.edges@
    }

    /// Add a node to the graph.
    pub fn add(&mut self, node: ExampleNode)
        ensures
            final(self).spec_nodes() == old(self).spec_nodes().push(node),
            final(self).spec_edges_all() == old(self).spec_edges_all(),
            forall|n: ExampleNode|
                #[trigger] final(self).spec_is_goal(n) == old(self).spec_is_goal(n),
    {
        self.nodes.push(node);
    }

    /// Add a directed edge to the graph.
    pub fn add_edge(&mut self, edge: ExampleEdge)
        ensures
            final(self).spec_nodes() == old(self).spec_nodes(),
            final(self).spec_edges_all() == old(self).spec_edges_all().push(edge),
            forall|n: ExampleNode|
                #[trigger] final(self).spec_is_goal(n) == old(self).spec_is_goal(n),
    {
        self.edges.push(edge);
    }

    /// Designate `node` as the goal.
    pub fn set_goal(&mut self, node: ExampleNode)
        ensures
            final(self).spec_nodes() == old(self).spec_nodes(),
            final(self).spec_edges_all() == old(self).spec_edges_all(),
            forall|n: ExampleNode| #[trigger] final(self).spec_is_goal(n) <==> n.id == node.id,
    {
        self.goal_id = node.id;
    }

    /// Whether the graph holds an edge from `a` to `b`.
    fn has_edge(&self, a: ExampleNode, b: ExampleNode) -> (r: bool)
        ensures
            r == self.spec_has_edge(a, b),
    {
        let n = self.edges.len();
        let mut i: usize = 0;
        while i < n
            invariant
                n == self.edges@.len(),
                0 <= i <= n,
                forall|j: int|
                    0 <= j < i ==> !((#[trigger] self.edges@[j]).from_id == a.id
                        && self.edges@[j].to_id == b.id),
            decreases n - i,
        {
            let e = self.edges[i];
            if e.from_id == a.id && e.to_id == b.id {
                proof {
                    assert(self.spec_edges_all()[i as int].from_id == a.id
                        && self.spec_edges_all()[i as int].to_id == b.id);
                }
                return true;
            }
            i = i + 1;
        }
        proof {
            assert forall|j: int| 0 <= j < self.spec_edges_all().len() implies !((
            #[trigger] self.spec_edges_all()[j]).from_id == a.id && self.spec_edges_all()[j].to_id
                == b.id) by {
                assert(self.spec_edges_all()[j] == self.edges@[j]);
            }
        }
        false
    }
}

impl Graph for ExampleGraph {
    type Node = ExampleNode;

    type Edge = ExampleEdge;

    open spec fn spec_root() -> ExampleNode {
        ExampleNode { id: 8 }
    }

    closed spec fn spec_nodes(&self) -> Seq<ExampleNode> {
        self.nodes@
    }

    open spec fn spec_children(&self, node: ExampleNode) -> Seq<ExampleNode> {
        self.spec_nodes().filter(|m: ExampleNode| self.spec_has_edge(node, m))
    }

    open spec fn spec_edges(&self, node: ExampleNode) -> Seq<ExampleEdge> {
        self.spec_edges_all().filter(|e: ExampleEdge| e.from_id == node.id)
    }

    closed spec fn spec_is_goal(&self, node: ExampleNode) -> bool {
        node.id == self.goal_id
    }

    proof fn node_eq_agrees() {
        assert(node_eq_facts::<ExampleNode>());
    }

    proof fn children_in_nodes(&self) {
        assert forall|n: ExampleNode, c: ExampleNode|
            (#[trigger] self.spec_children(n).contains(c)) implies self.spec_nodes().contains(
            c,
        ) by {
            lemma_filter_keeps_members(
                self.nodes@,
                |m: ExampleNode| self.spec_has_edge(n, m),
                c,
            );
        }
    }

    fn root() -> (r: ExampleNode) {
        ExampleNode::new(8)
    }

    fn children(&self, node: ExampleNode) -> (r: Vec<ExampleNode>) {
        let pred = Ghost(|m: ExampleNode| self.spec_has_edge(node, m));
        let mut out: Vec<ExampleNode> = Vec::new();
        let n = self.nodes.len();
        let mut i: usize = 0;
        proof {
            assert(self.nodes@.subrange(0, 0).filter(pred@) =~= Seq::<ExampleNode>::empty());
        }
        while i < n
            invariant
                n == self.nodes@.len(),
                0 <= i <= n,
                pred@ == (|m: ExampleNode| self.spec_has_edge(node, m)),
                out@ == self.nodes@.subrange(0, i as int).filter(pred@),
            decreases n - i,
        {
            let m = self.nodes[i];
            proof {
                assert(self.nodes@.subrange(0, i + 1) =~= self.nodes@.subrange(0, i as int).push(
                    m,
                ));
                self.nodes@.subrange(0, i as int).lemma_filter_push(m, pred@);
            }
            if self.has_edge(node, m) {
                out.push(m);
            }
            i = i + 1;
        }
        proof {
            assert(self.nodes@.subrange(0, n as int) =~= self.nodes@);
        }
        out
    }

    fn edges(&self, node: ExampleNode) -> (r: Vec<ExampleEdge>) {
        let pred = Ghost(|e: ExampleEdge| e.from_id == node.id);
        let mut out: Vec<ExampleEdge> = Vec::new();
        let n = self.edges.len();
        let mut i: usize = 0;
        proof {
            assert(self.edges@.subrange(0, 0).filter(pred@) =~= Seq::<ExampleEdge>::empty());
        }
        while i < n
            invariant
                n == self.edges@.len(),
                0 <= i <= n,
                pred@ == (|e: ExampleEdge| e.from_id == node.id),
                out@ == self.edges@.subrange(0, i as int).filter(pred@),
            decreases n - i,
        {
            let e = self.edges[i];
            proof {
                assert(self.edges@.subrange(0, i + 1) =~= self.edges@.subrange(0, i as int).push(
                    e,
                ));
                self.edges@.subrange(0, i as int).lemma_filter_push(e, pred@);
            }
            if e.from_id == node.id {
                out.push(e);
            }
            i = i + 1;
        }
        proof {
            assert(self.edges@.subrange(0, n as int) =~= self.edges@);
        }
        out
    }

    fn is_goal(&self, node: ExampleNode) -> (r: bool) {
        node.id == self.goal_id
    }
}

impl WeightedGraph for ExampleGraph {
    open spec fn spec_edge_weight(&self, from: ExampleNode, to: ExampleNode) -> int {
        1
    }

    proof fn edge_weights_in_range(&self) {
    }

    fn edge_weight(&self, from: ExampleNode, to: ExampleNode) -> (r: i64) {
        1
    }
}

impl HeuristicGraph for ExampleGraph {
    open spec fn spec_heuristic(&self, node: ExampleNode) -> int {
        1
    }

    fn heuristic(&self, node: ExampleNode) -> (r: i64) {
        1
    }
}

/// Everything a filter keeps was in the sequence it filtered.
proof fn lemma_filter_keeps_members<A>(s: Seq<A>, pred: spec_fn(A) -> bool, x: A)
    requires
        s.filter(pred).contains(x),
    ensures
        s.contains(x),
    decreases s.len(),
{
    reveal(Seq::filter);
    if s.len() > 0 {
        if x == s.last() {
            assert(s[s.len() - 1] == x);
        } else {
            let sub = s.drop_last().filter(pred);
            assert(sub.contains(x)) by {
                let i = choose|i: int| 0 <= i < s.filter(pred).len() && s.filter(pred)[i] == x;
                if pred(s.last()) {
                    assert(s.filter(pred) == sub.push(s.last()));
                    assert(sub[i] == x);
                }
            }
            lemma_filter_keeps_members(s.drop_last(), pred, x);
            let j = choose|j: int| 0 <= j < s.drop_last().len() && s.drop_last()[j] == x;
            assert(s[j] == x);
        }
    }
}

/// The node list of the example graph, in insertion order.
pub open spec fn example_nodes() -> Seq<ExampleNode> {
    seq![
        ExampleNode { id: 8 },
        ExampleNode { id: 3 },
        ExampleNode { id: 10 },
        ExampleNode { id: 1 },
        ExampleNode { id: 6 },
        ExampleNode { id: 14 },
        ExampleNode { id: 4 },
        ExampleNode { id: 7 },
        ExampleNode { id: 13 },
    ]
}

/// The edge list of the example graph, in insertion order.
pub open spec fn example_edges() -> Seq<ExampleEdge> {
    seq![
        ExampleEdge { from_id: 8, to_id: 3 },
        ExampleEdge { from_id: 8, to_id: 10 },
        ExampleEdge { from_id: 3, to_id: 1 },
        ExampleEdge { from_id: 3, to_id: 6 },
        ExampleEdge { from_id: 10, to_id: 14 },
        ExampleEdge { from_id: 6, to_id: 4 },
        ExampleEdge { from_id: 6, to_id: 7 },
        ExampleEdge { from_id: 14, to_id: 13 },
    ]
}

/// The fixture: a small binary-search-tree-shaped graph rooted at node 8,
/// with node 7 as the goal, unit edge weights and a constant heuristic of 1.
pub fn get_example_graph() -> (r: ExampleGraph)
    ensures
        r.spec_nodes() == example_nodes(),
        r.spec_edges_all() == example_edges(),
        forall|n: ExampleNode| #[trigger] r.spec_is_goal(n) <==> n.id == 7,
{
    let mut graph = ExampleGraph::new();
    graph.add(ExampleNode::new(8));
    graph.add(ExampleNode::new(3));
    graph.add(ExampleNode::new(10));
    graph.add(ExampleNode::new(1));
    graph.add(ExampleNode::new(6));
    graph.add(ExampleNode::new(14));
    graph.add(ExampleNode::new(4));
    graph.add(ExampleNode::new(7));
    graph.add(ExampleNode::new(13));
    graph.add_edge(ExampleEdge::new(8, 3));
    graph.add_edge(ExampleEdge::new(8, 10));
    graph.add_edge(ExampleEdge::new(3, 1));
    graph.add_edge(ExampleEdge::new(3, 6));
    graph.add_edge(ExampleEdge::new(10, 14));
    graph.add_edge(ExampleEdge::new(6, 4));
    graph.add_edge(ExampleEdge::new(6, 7));
    graph.add_edge(ExampleEdge::new(14, 13));
    graph.set_goal(ExampleNode::new(7));
    proof {
        assert(graph.spec_nodes() =~= example_nodes());
        assert(graph.spec_edges_all() =~= example_edges());
    }
    graph
}

} // verus!
