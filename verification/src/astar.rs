//! A* search: the structure of uniform-cost search with the frontier keyed
//! by cumulative cost plus the heuristic estimate. Relaxation may re-open a
//! node whenever a cheaper cost to it appears, so correctness does not
//! depend on the heuristic being consistent; when the heuristic is
//! admissible and non-negative, the first goal extracted carries the true
//! minimum cost, and the contracts here say so.

use vstd::prelude::*;
use crate::bookkeeping::CostMap;
use crate::bookkeeping::ParentMap;
use crate::bookkeeping::has_parent;
use crate::bookkeeping::parent_of;
use crate::bookkeeping::links_lex;
use crate::bookkeeping::lemma_links_lex_relax;
use crate::bookkeeping::lemma_links_lex_to_rank;
use crate::bookkeeping::lemma_last_entry_push;
use crate::bookkeeping::lex_rank;
use crate::bookkeeping::rebuild_path;
use crate::bookkeeping::pop_min;
use crate::bookkeeping::node_pot;
use crate::bookkeeping::pot_sum;
use crate::bookkeeping::lemma_pot_sum_nonneg;
use crate::bookkeeping::lemma_pot_sum_lt;
use crate::bookkeeping::lemma_settled_no_cheap_goal;
use crate::bookkeeping::lemma_settled_dist_bound;
use crate::dijkstra::Dijkstra;
use crate::dijkstra::settled;
use crate::graph::Graph;
use crate::graph::WeightedGraph;
use crate::graph::HeuristicGraph;
use crate::graph::node_eq_facts;
use crate::graph::reachable;
use crate::graph::connects;
use crate::graph::is_walk;
use crate::graph::walk_cost;
use crate::graph::optimally_reachable;
use crate::graph::lemma_connects_trivial;
use crate::graph::lemma_connects_extend;
use crate::graph::lemma_walk_cost_drop_last;
use crate::graph::lemma_walk_cost_split;
use crate::graphsearcher::WeightedGraphSearcher;
use crate::heapelement::HeapElement;

verus! {

/// The heuristic never goes negative.
pub open spec fn heuristic_nonneg<G: WeightedGraph + HeuristicGraph>(g: G) -> bool {
    forall|x: G::Node| 0 <= #[trigger] g.spec_heuristic(x)
}

/// The heuristic never overestimates the cost of reaching a goal: A*'s
/// admissibility requirement for optimal results.
pub open spec fn heuristic_admissible<G: WeightedGraph + HeuristicGraph>(g: G) -> bool {
    forall|x: G::Node, q: Seq<G::Node>, m: G::Node|
        #![trigger connects(g, q, x, m)]
        connects(g, q, x, m) && g.spec_is_goal(m) ==> g.spec_heuristic(x) <= walk_cost(g, q)
}

/// The key A* files a frontier entry under: cumulative cost plus heuristic,
/// clamped to the representable range.
pub open spec fn astar_key(gv: int, h: int) -> int {
    if h >= 0 {
        if gv + h <= i64::MAX {
            gv + h
        } else {
            i64::MAX as int
        }
    } else {
        if gv + h >= i64::MIN {
            gv + h
        } else {
            i64::MIN as int
        }
    }
}

/// The all-zero heuristic is admissible and never negative, so with it
/// A*'s path-cost guarantee coincides with uniform-cost search's.
pub proof fn lemma_zero_heuristic_is_admissible<G: WeightedGraph + HeuristicGraph>(g: G)
    requires
        forall|x: G::Node| #[trigger] g.spec_heuristic(x) == 0,
    ensures
        heuristic_admissible(g),
        heuristic_nonneg(g),
{
    assert forall|x: G::Node, q: Seq<G::Node>, m: G::Node|
        #![trigger connects(g, q, x, m)]
        connects(g, q, x, m) && g.spec_is_goal(m) implies g.spec_heuristic(x) <= walk_cost(
        g,
        q,
    ) by {
        crate::graph::lemma_walk_cost_nonneg(g, q);
    }
}

/// Some frontier entry carries node `n` with cumulative cost exactly `d`.
pub open spec fn has_exact_g<N>(f: Seq<HeapElement<N>>, gv: Seq<int>, n: N, d: int) -> bool {
    exists|i: int| 0 <= i < f.len() && f[i].node == n && gv[i] == d
}

/// Removing a frontier entry other than the exact one keeps it present.
proof fn lemma_exact_g_remove<N>(f: Seq<HeapElement<N>>, gv: Seq<int>, i: int, n: N, d: int)
    requires
        f.len() == gv.len(),
        0 <= i < f.len(),
        has_exact_g(f, gv, n, d),
        !(f[i].node == n && gv[i] == d),
    ensures
        has_exact_g(f.remove(i), gv.remove(i), n, d),
{
    let j = choose|j: int| 0 <= j < f.len() && f[j].node == n && gv[j] == d;
    if j < i {
        assert(f.remove(i)[j] == f[j]);
        assert(gv.remove(i)[j] == gv[j]);
    } else {
        assert(f.remove(i)[j - 1] == f[j]);
        assert(gv.remove(i)[j - 1] == gv[j]);
    }
}

/// The frontier-cut argument for A*: any walk from the root either passes a
/// frontier entry whose cumulative cost is within the walk's prefix cost,
/// or ends at a fully relaxed node within the walk's cost, or costs at
/// least the representable maximum.
proof fn lemma_walk_meets_astar_cut<G: WeightedGraph + HeuristicGraph>(
    g: G,
    dist: Map<G::Node, int>,
    f: Seq<HeapElement<G::Node>>,
    gv: Seq<int>,
    root: G::Node,
    q: Seq<G::Node>,
)
    requires
        f.len() == gv.len(),
        dist.dom().contains(root),
        dist[root] == 0,
        forall|a: G::Node, b: G::Node| 0 <= #[trigger] g.spec_edge_weight(a, b),
        forall|k: G::Node| #[trigger] dist.dom().contains(k) ==> 0 <= dist[k] <= i64::MAX,
        forall|k: G::Node|
            #[trigger] dist.dom().contains(k) ==> (has_exact_g(f, gv, k, dist[k]) || settled(
                g,
                dist,
                k,
            )),
        is_walk(g, q),
        q[0] == root,
    ensures
        (exists|j: int, i: int|
            0 <= j < q.len() && 0 <= i < f.len() && f[i].node == q[j] && gv[i] <= walk_cost(
                g,
                q.subrange(0, j + 1),
            )) || (dist.dom().contains(q[q.len() - 1]) && dist[q[q.len() - 1]] <= walk_cost(g, q)
            && settled(g, dist, q[q.len() - 1])) || walk_cost(g, q) >= i64::MAX,
    decreases q.len(),
{
    if q.len() == 1 {
        assert(q.subrange(0, 1) =~= q);
        assert(walk_cost(g, q) == 0);
        if has_exact_g(f, gv, root, dist[root]) {
            let i = choose|i: int| 0 <= i < f.len() && f[i].node == root && gv[i] == dist[root];
            assert(f[i].node == q[0] && gv[i] <= walk_cost(g, q.subrange(0, 1)));
        }
    } else {
        let t = q.drop_last();
        assert forall|i: int| 0 <= i < t.len() - 1 implies (#[trigger] g.spec_children(
            t[i],
        )).contains(t[i + 1]) by {
            assert(t[i] == q[i] && t[i + 1] == q[i + 1]);
            assert(g.spec_children(q[i]).contains(q[i + 1]));
        }
        assert(t[0] == root);
        lemma_walk_meets_astar_cut(g, dist, f, gv, root, t);
        lemma_walk_cost_drop_last(g, q);
        let w = g.spec_edge_weight(q[q.len() - 2], q[q.len() - 1]);
        assert(0 <= w);
        if exists|j: int, i: int|
            0 <= j < t.len() && 0 <= i < f.len() && f[i].node == t[j] && gv[i] <= walk_cost(
                g,
                t.subrange(0, j + 1),
            ) {
            let (j, i) = choose|j: int, i: int|
                0 <= j < t.len() && 0 <= i < f.len() && f[i].node == t[j] && gv[i] <= walk_cost(
                    g,
                    t.subrange(0, j + 1),
                );
            assert(t.subrange(0, j + 1) =~= q.subrange(0, j + 1));
            assert(t[j] == q[j]);
        } else if dist.dom().contains(t[t.len() - 1]) && dist[t[t.len() - 1]] <= walk_cost(g, t)
            && settled(g, dist, t[t.len() - 1]) {
            let x = t[t.len() - 1];
            assert(x == q[q.len() - 2]);
            let c = q[q.len() - 1];
            assert(g.spec_children(q[q.len() - 2]).contains(c));
            if dist.dom().contains(c) && dist[c] <= dist[x] + w {
                assert(dist[c] <= walk_cost(g, q));
                if has_exact_g(f, gv, c, dist[c]) {
                    let i = choose|i: int|
                        0 <= i < f.len() && f[i].node == c && gv[i] == dist[c];
                    let j = q.len() - 1;
                    assert(q.subrange(0, j + 1) =~= q);
                    assert(f[i].node == q[j] && gv[i] <= walk_cost(g, q.subrange(0, j + 1)));
                }
            } else {
                assert(dist[x] + w >= i64::MAX);
                assert(walk_cost(g, q) >= i64::MAX);
            }
        } else {
            assert(walk_cost(g, t) >= i64::MAX);
        }
    }
}

/// Along a chain of parent links each recorded at no less than its parent's
/// cost plus the edge, each prefix costs at most what is recorded for its
/// last node.
proof fn lemma_chain_cost_at_most<G: WeightedGraph>(
    g: G,
    s: Seq<(G::Node, G::Node)>,
    dist: Map<G::Node, int>,
    root: G::Node,
    p: Seq<G::Node>,
    j: int,
)
    requires
        dist.dom().contains(root),
        dist[root] == 0,
        forall|c: G::Node|
            #[trigger] has_parent(s, c) ==> dist.dom().contains(c) && dist.dom().contains(
                parent_of(s, c),
            ) && dist[c] >= dist[parent_of(s, c)] + g.spec_edge_weight(parent_of(s, c), c),
        p.len() >= 1,
        p[0] == root,
        forall|i: int|
            0 <= i < p.len() - 1 ==> has_parent(s, #[trigger] p[i + 1]) && parent_of(s, p[i + 1])
                == p[i],
        0 <= j < p.len(),
    ensures
        dist.dom().contains(p[j]),
        walk_cost(g, p.subrange(0, j + 1)) <= dist[p[j]],
    decreases j,
{
    if j == 0 {
        assert(p.subrange(0, 1) =~= seq![root]);
    } else {
        lemma_chain_cost_at_most(g, s, dist, root, p, j - 1);
        lemma_walk_cost_drop_last(g, p.subrange(0, j + 1));
        assert(p.subrange(0, j + 1).drop_last() =~= p.subrange(0, j));
        assert(p.subrange(0, j + 1)[j] == p[j]);
        assert(p.subrange(0, j + 1)[j - 1] == p[j - 1]);
        assert(has_parent(s, p[j]) && parent_of(s, p[j]) == p[j - 1]);
    }
}

/// An A* searcher. Structurally uniform-cost search whose frontier key for
/// a candidate is its cumulative cost plus the heuristic estimate at it;
/// with the heuristic identically zero it explores as Dijkstra does.
pub struct AStar<G: WeightedGraph + HeuristicGraph> {
    distances: CostMap<G::Node>,
    parents: ParentMap<G::Node>,
    max_frontier: usize,
    solution: Option<G::Node>,
    root_node: Option<G::Node>,
    run_root: Ghost<G::Node>,
    graph: Ghost<G>,
}

impl<G: WeightedGraph + HeuristicGraph> AStar<G> {
    /// The peak frontier size of the most recent tracked run.
    pub closed spec fn spec_max_frontier(&self) -> usize {
        self.max_frontier
    }

    pub fn new() -> (r: Self)
        ensures
            r.wf(),
            r.spec_solution() is None,
            r.spec_visited() == Set::<G::Node>::empty(),
            r.spec_max_frontier() == 1,
    {
        let r = AStar {
            distances: CostMap::new(),
            parents: ParentMap::new(),
            max_frontier: 1,
            solution: None,
            root_node: None,
            run_root: Ghost(arbitrary()),
            graph: Ghost(arbitrary()),
        };
        proof {
            assert(r.spec_visited() =~= Set::<G::Node>::empty());
        }
        r
    }

    /// The largest number of frontier entries the most recent tracked run
    /// held at once after processing an extracted node (at least 1, for the
    /// root that seeds the frontier).
    pub fn max_frontier(&self) -> (r: usize)
        ensures
            r == self.spec_max_frontier(),
    {
        self.max_frontier
    }
}

impl<G: WeightedGraph + HeuristicGraph> Default for AStar<G> {
    fn default() -> (r: Self)
        ensures
            r.wf(),
            r.spec_solution() is None,
            r.spec_visited() == Set::<G::Node>::empty(),
    {
        Self::new()
    }
}

impl<G: WeightedGraph + HeuristicGraph> WeightedGraphSearcher<G> for AStar<G> {
    closed spec fn wf(&self) -> bool {
        &&& self.distances.wf()
        &&& links_lex(self.parents@, self.graph@, self.run_root@, self.distances@)
        &&& forall|k: G::Node|
            #[trigger] self.distances@.dom().contains(k) ==> 0 <= self.distances@[k] <= i64::MAX
        &&& (self.root_node matches Some(n) ==> n == self.run_root@)
        &&& (self.solution matches Some(sol) ==> {
            let g = self.graph@;
            let root = self.run_root@;
            let dist = self.distances@;
            &&& self.root_node is Some
            &&& (sol == root || has_parent(self.parents@, sol))
            &&& dist.dom().contains(sol)
            &&& dist.dom().contains(root)
            &&& dist[root] == 0
            &&& forall|c: G::Node|
                #[trigger] has_parent(self.parents@, c) ==> dist.dom().contains(c)
                    && dist.dom().contains(parent_of(self.parents@, c)) && dist[c] >= dist[
                    parent_of(self.parents@, c)] + g.spec_edge_weight(parent_of(self.parents@, c), c)
            &&& ((heuristic_admissible(g) && heuristic_nonneg(g)) ==> forall|
                q: Seq<G::Node>,
                m: G::Node,
            |
                #![trigger connects(g, q, root, m)]
                connects(g, q, root, m) && g.spec_is_goal(m) ==> walk_cost(g, q) >= dist[sol])
        })
    }

    closed spec fn spec_graph(&self) -> G {
        self.graph@
    }

    closed spec fn spec_run_root(&self) -> G::Node {
        self.run_root@
    }

    closed spec fn spec_visited(&self) -> Set<G::Node> {
        self.distances@.dom()
    }

    closed spec fn spec_solution(&self) -> Option<G::Node> {
        self.solution
    }

    fn search_tracked(&mut self, graph: &G, root: G::Node) -> (r: Option<G::Node>)
        ensures
            r is None ==> forall|p: Seq<G::Node>, m: G::Node|
                #![trigger connects(*graph, p, root, m)]
                connects(*graph, p, root, m) && walk_cost(*graph, p) < i64::MAX ==> final(self).spec_visited().contains(m),
            graph.spec_is_goal(root) ==> r == Some(root),
            final(self).spec_max_frontier() >= 1,
    {
        proof {
            G::node_eq_agrees();
            graph.children_in_nodes();
            graph.edge_weights_in_range();
        }
        self.graph = Ghost(*graph);
        self.run_root = Ghost(root);
        self.root_node = Some(root);
        self.distances = CostMap::new();
        self.parents = ParentMap::new();
        self.solution = None;
        self.max_frontier = 1;
        let ghost univ_seq = graph.spec_nodes().push(root);
        let mut frontier: Vec<HeapElement<G::Node>> = Vec::new();
        let root_key = graph.heuristic(root);
        frontier.push(HeapElement::new(root, root_key));
        self.distances.set(root, 0);
        let ghost mut gvals: Seq<int> = seq![0int];
        proof {
            lemma_connects_trivial(*graph, root);
            assert(frontier@[0].node == root);
            assert(gvals[0] == 0);
            assert(root_key == astar_key(0, graph.spec_heuristic(root)));
            assert(has_exact_g(frontier@, gvals, root, 0));
            assert(univ_seq[univ_seq.len() - 1] == root);
        }
        while frontier.len() != 0
            invariant
                node_eq_facts::<G::Node>(),
                forall|n: G::Node, c: G::Node|
                    (#[trigger] graph.spec_children(n).contains(c)) ==> graph.spec_nodes().contains(
                        c,
                    ),
                forall|a: G::Node, b: G::Node|
                    0 <= #[trigger] graph.spec_edge_weight(a, b) <= i64::MAX,
                univ_seq == graph.spec_nodes().push(root),
                self.graph@ == *graph,
                self.run_root@ == root,
                self.root_node == Some(root),
                self.solution is None,
                self.distances.wf(),
                1 <= self.max_frontier,
                settled(*graph, self.distances@, root) || (frontier@.len() == 1 && frontier@[
                    0].node == root),
                self.distances@.dom().contains(root),
                self.distances@[root] == 0,
                forall|k: G::Node|
                    #[trigger] self.distances@.dom().contains(k) ==> 0 <= self.distances@[k]
                        <= i64::MAX,
                forall|k: G::Node|
                    #[trigger] self.distances@.dom().contains(k) ==> univ_seq.contains(k),
                forall|k: G::Node|
                    #[trigger] self.distances@.dom().contains(k) ==> reachable(*graph, root, k),
                forall|k: G::Node|
                    #[trigger] self.distances@.dom().contains(k) ==> (k == root || has_parent(
                        self.parents@,
                        k,
                    )),
                gvals.len() == frontier@.len(),
                forall|i: int|
                    0 <= i < frontier@.len() ==> {
                        &&& self.distances@.dom().contains((#[trigger] frontier@[i]).node)
                        &&& self.distances@[frontier@[i].node] <= gvals[i]
                        &&& 0 <= gvals[i] <= i64::MAX
                        &&& frontier@[i].cost == astar_key(
                            gvals[i],
                            graph.spec_heuristic(frontier@[i].node),
                        )
                    },
                forall|k: G::Node|
                    #[trigger] self.distances@.dom().contains(k) ==> (has_exact_g(
                        frontier@,
                        gvals,
                        k,
                        self.distances@[k],
                    ) || settled(*graph, self.distances@, k)),
                forall|c: G::Node|
                    #[trigger] has_parent(self.parents@, c) ==> self.distances@.dom().contains(c)
                        && self.distances@.dom().contains(parent_of(self.parents@, c))
                        && self.distances@[c] >= self.distances@[parent_of(self.parents@, c)]
                        + graph.spec_edge_weight(parent_of(self.parents@, c), c),
                links_lex(self.parents@, *graph, root, self.distances@),
            decreases pot_sum(univ_seq, self.distances@), frontier@.len(),
        {
            let ghost pre_f = frontier@;
            let ghost pre_gv = gvals;
            let ghost pre_d = self.distances@;
            let e = match pop_min(&mut frontier) {
                Some(e) => e,
                None => vstd::pervasive::unreached(),
            };
            let ghost rem_i = choose|i: int|
                0 <= i < pre_f.len() && pre_f[i] == e && frontier@ == pre_f.remove(i);
            proof {
                gvals = gvals.remove(rem_i);
            }
            let n = e.node;
            proof {
                pre_f.remove_ensures(rem_i);
                pre_gv.remove_ensures(rem_i);
                assert(self.distances@.dom().contains(n));
                assert forall|i: int| 0 <= i < frontier@.len() implies {
                    &&& self.distances@.dom().contains((#[trigger] frontier@[i]).node)
                    &&& self.distances@[frontier@[i].node] <= gvals[i]
                    &&& 0 <= gvals[i] <= i64::MAX
                    &&& frontier@[i].cost == astar_key(
                        gvals[i],
                        graph.spec_heuristic(frontier@[i].node),
                    )
                } by {
                    if i < rem_i {
                        assert(frontier@[i] == pre_f[i] && gvals[i] == pre_gv[i]);
                    } else {
                        assert(frontier@[i] == pre_f[i + 1] && gvals[i] == pre_gv[i + 1]);
                    }
                }
                assert forall|k: G::Node|
                    #[trigger] self.distances@.dom().contains(k) && k != n implies (has_exact_g(
                    frontier@,
                    gvals,
                    k,
                    self.distances@[k],
                ) || settled(*graph, self.distances@, k)) by {
                    if has_exact_g(pre_f, pre_gv, k, self.distances@[k]) {
                        lemma_exact_g_remove(pre_f, pre_gv, rem_i, k, self.distances@[k]);
                    }
                }
            }
            if graph.is_goal(n) {
                proof {
                    if graph.spec_is_goal(root) {
                        if settled(*graph, self.distances@, root) {
                        } else {
                            assert(pre_f.len() == 1 && pre_f[0].node == root);
                            assert(pre_f[rem_i] == e);
                            assert(n == root);
                        }
                    }
                    if heuristic_admissible(*graph) && heuristic_nonneg(*graph) {
                        let dist = self.distances@;
                        let ghost g_e = pre_gv[rem_i];
                        assert(dist[n] <= g_e);
                        assert(e.cost == astar_key(g_e, graph.spec_heuristic(n)));
                        assert(g_e <= e.cost);
                        assert forall|q: Seq<G::Node>, m: G::Node|
                            #![trigger connects(*graph, q, root, m)]
                            connects(*graph, q, root, m) && graph.spec_is_goal(m)
                            implies walk_cost(*graph, q) >= dist[n] by {
                            lemma_walk_meets_astar_cut(*graph, dist, pre_f, pre_gv, root, q);
                            if exists|j: int, i: int|
                                0 <= j < q.len() && 0 <= i < pre_f.len() && pre_f[i].node == q[j]
                                    && pre_gv[i] <= walk_cost(*graph, q.subrange(0, j + 1)) {
                                let (j, i) = choose|j: int, i: int|
                                    0 <= j < q.len() && 0 <= i < pre_f.len() && pre_f[i].node
                                        == q[j] && pre_gv[i] <= walk_cost(
                                        *graph,
                                        q.subrange(0, j + 1),
                                    );
                                let suffix = q.subrange(j, q.len() as int);
                                assert forall|ii: int| 0 <= ii < suffix.len() - 1 implies (
                                #[trigger] graph.spec_children(suffix[ii])).contains(
                                    suffix[ii + 1],
                                ) by {
                                    assert(suffix[ii] == q[j + ii]);
                                    assert(suffix[ii + 1] == q[j + ii + 1]);
                                    assert(graph.spec_children(q[j + ii]).contains(q[j + ii + 1]));
                                }
                                assert(suffix[0] == q[j]);
                                assert(suffix[suffix.len() - 1] == m);
                                assert(connects(*graph, suffix, q[j], m));
                                assert(graph.spec_heuristic(q[j]) <= walk_cost(*graph, suffix));
                                lemma_walk_cost_split(*graph, q, j);
                                assert(pre_f[i].cost == astar_key(
                                    pre_gv[i],
                                    graph.spec_heuristic(q[j]),
                                ));
                                assert(pre_f[i].cost <= pre_gv[i] + graph.spec_heuristic(q[j]));
                                assert(e.cost <= pre_f[i].cost);
                            } else if dist.dom().contains(m) && settled(*graph, dist, m) {
                                assert(!graph.spec_is_goal(m));
                            } else {
                                assert(walk_cost(*graph, q) >= i64::MAX);
                            }
                        }
                    }
                    self.distances.lemma_card();
                }
                self.solution = Some(n);
                return Some(n);
            }
            let gcost = match self.distances.get(n) {
                Some(v) => v,
                None => vstd::pervasive::unreached(),
            };
            let ch = graph.children(n);
            let mut k: usize = 0;
            while k < ch.len()
                invariant
                    node_eq_facts::<G::Node>(),
                    forall|nn: G::Node, c: G::Node|
                        (#[trigger] graph.spec_children(nn).contains(c))
                            ==> graph.spec_nodes().contains(c),
                    forall|a: G::Node, b: G::Node|
                        0 <= #[trigger] graph.spec_edge_weight(a, b) <= i64::MAX,
                    univ_seq == graph.spec_nodes().push(root),
                    ch@ == graph.spec_children(n),
                    0 <= k <= ch@.len(),
                    !graph.spec_is_goal(n),
                    self.graph@ == *graph,
                    self.run_root@ == root,
                    self.root_node == Some(root),
                    self.solution is None,
                    self.distances.wf(),
                    1 <= self.max_frontier,
                    settled(*graph, self.distances@, root) || n == root,
                    self.distances@.dom().contains(n),
                    self.distances@[root] == 0,
                    self.distances@.dom().contains(root),
                    self.distances@[n] == gcost,
                    0 <= gcost <= i64::MAX,
                    forall|kk: G::Node|
                        #[trigger] self.distances@.dom().contains(kk) ==> 0 <= self.distances@[kk]
                            <= i64::MAX,
                    forall|kk: G::Node|
                        #[trigger] self.distances@.dom().contains(kk) ==> univ_seq.contains(kk),
                    forall|kk: G::Node|
                        #[trigger] self.distances@.dom().contains(kk) ==> reachable(
                            *graph,
                            root,
                            kk,
                        ),
                    forall|kk: G::Node|
                        #[trigger] self.distances@.dom().contains(kk) ==> (kk == root
                            || has_parent(self.parents@, kk)),
                    gvals.len() == frontier@.len(),
                    forall|i: int|
                        0 <= i < frontier@.len() ==> {
                            &&& self.distances@.dom().contains((#[trigger] frontier@[i]).node)
                            &&& self.distances@[frontier@[i].node] <= gvals[i]
                            &&& 0 <= gvals[i] <= i64::MAX
                            &&& frontier@[i].cost == astar_key(
                                gvals[i],
                                graph.spec_heuristic(frontier@[i].node),
                            )
                        },
                    forall|kk: G::Node|
                        #[trigger] self.distances@.dom().contains(kk) && kk != n ==> (has_exact_g(
                            frontier@,
                            gvals,
                            kk,
                            self.distances@[kk],
                        ) || settled(*graph, self.distances@, kk)),
                    forall|c: G::Node|
                        #[trigger] has_parent(self.parents@, c)
                            ==> self.distances@.dom().contains(c)
                            && self.distances@.dom().contains(parent_of(self.parents@, c))
                            && self.distances@[c] >= self.distances@[parent_of(self.parents@, c)]
                            + graph.spec_edge_weight(parent_of(self.parents@, c), c),
                    forall|j: int|
                        0 <= j < k ==> {
                            let c = #[trigger] ch@[j];
                            ||| (self.distances@.dom().contains(c) && self.distances@[c] <= gcost
                                + graph.spec_edge_weight(n, c))
                            ||| gcost + graph.spec_edge_weight(n, c) >= i64::MAX
                        },
                    links_lex(self.parents@, *graph, root, self.distances@),
                    pot_sum(univ_seq, self.distances@) <= pot_sum(univ_seq, pre_d),
                    self.distances@ != pre_d ==> pot_sum(univ_seq, self.distances@) < pot_sum(
                        univ_seq,
                        pre_d,
                    ),
                    self.distances@ == pre_d ==> frontier@ == pre_f.remove(rem_i),
                decreases ch@.len() - k,
            {
                let c = ch[k];
                proof {
                    assert(ch@[k as int] == c);
                    assert(graph.spec_children(n).contains(c));
                }
                let w = graph.edge_weight(n, c);
                let cand = if gcost <= i64::MAX - w {
                    gcost + w
                } else {
                    i64::MAX
                };
                let cur = match self.distances.get(c) {
                    Some(v) => v,
                    None => i64::MAX,
                };
                if cand < cur {
                    proof {
                        assert(c != n);
                        assert(c != root);
                        assert(cand == gcost + w);
                        assert(self.distances@[n] <= cand);
                        lemma_links_lex_relax(
                            self.parents@,
                            *graph,
                            root,
                            self.distances@,
                            c,
                            n,
                            cand as int,
                        );
                        let pr = choose|p: Seq<G::Node>| connects(*graph, p, root, n);
                        lemma_connects_extend(*graph, pr, root, n, c);
                        let ji = choose|ji: int|
                            0 <= ji < graph.spec_nodes().len() && graph.spec_nodes()[ji] == c;
                        assert(univ_seq[ji] == c);
                        assert(univ_seq.contains(c));
                    }
                    let ghost d1 = self.distances@;
                    let ghost f1 = frontier@;
                    let ghost gv1 = gvals;
                    let ghost s1 = self.parents@;
                    self.parents.record(c, n);
                    self.distances.set(c, cand);
                    let h = graph.heuristic(c);
                    let key = if h >= 0 {
                        if cand <= i64::MAX - h {
                            cand + h
                        } else {
                            i64::MAX
                        }
                    } else {
                        if cand >= i64::MIN - h {
                            cand + h
                        } else {
                            i64::MIN
                        }
                    };
                    frontier.push(HeapElement::new(c, key));
                    proof {
                        gvals = gvals.push(cand as int);
                        let d2 = self.distances@;
                        let f2 = frontier@;
                        assert(f2[f2.len() - 1].node == c && f2[f2.len() - 1].cost == key);
                        assert(gvals[f2.len() - 1] == cand as int);
                        assert(key == astar_key(cand as int, graph.spec_heuristic(c)));
                        assert(d2 == d1.insert(c, cand as int));
                        assert forall|kk: G::Node|
                            #[trigger] d2.dom().contains(kk) implies (kk == root || has_parent(
                            self.parents@,
                            kk,
                        )) by {
                            lemma_last_entry_push(s1, (c, n), kk);
                        }
                        assert forall|i: int| 0 <= i < f2.len() implies {
                            &&& d2.dom().contains((#[trigger] f2[i]).node)
                            &&& d2[f2[i].node] <= gvals[i]
                            &&& 0 <= gvals[i] <= i64::MAX
                            &&& f2[i].cost == astar_key(
                                gvals[i],
                                graph.spec_heuristic(f2[i].node),
                            )
                        } by {
                            if i < f1.len() {
                                assert(f2[i] == f1[i] && gvals[i] == gv1[i]);
                                let x = f1[i].node;
                                assert(d1.dom().contains(x));
                                assert(d1[x] <= gv1[i]);
                            }
                        }
                        assert(has_exact_g(f2, gvals, c, d2[c]));
                        assert forall|kk: G::Node|
                            #[trigger] d2.dom().contains(kk) && kk != n implies (has_exact_g(
                            f2,
                            gvals,
                            kk,
                            d2[kk],
                        ) || settled(*graph, d2, kk)) by {
                            if kk != c {
                                assert(d1.dom().contains(kk));
                                assert(d2[kk] == d1[kk]);
                                if has_exact_g(f1, gv1, kk, d1[kk]) {
                                    let j = choose|j: int|
                                        0 <= j < f1.len() && f1[j].node == kk && gv1[j] == d1[kk];
                                    assert(f2[j] == f1[j] && gvals[j] == gv1[j]);
                                    assert(has_exact_g(f2, gvals, kk, d2[kk]));
                                } else {
                                    assert(settled(*graph, d1, kk));
                                    assert forall|cc: G::Node|
                                        (#[trigger] graph.spec_children(kk).contains(cc))
                                        implies ((d2.dom().contains(cc) && d2[cc] <= d2[kk]
                                            + graph.spec_edge_weight(kk, cc)) || d2[kk]
                                            + graph.spec_edge_weight(kk, cc) >= i64::MAX) by {
                                        if d1.dom().contains(cc) && d1[cc] <= d1[kk]
                                            + graph.spec_edge_weight(kk, cc) {
                                            assert(d2[cc] <= d1[cc]);
                                        }
                                    }
                                }
                            }
                        }
                        assert forall|cc: G::Node|
                            #[trigger] has_parent(self.parents@, cc) implies
                            d2.dom().contains(cc) && d2.dom().contains(parent_of(
                            self.parents@,
                            cc,
                        )) && d2[cc] >= d2[parent_of(self.parents@, cc)] + graph.spec_edge_weight(
                            parent_of(self.parents@, cc),
                            cc,
                        ) by {
                            lemma_last_entry_push(s1, (c, n), cc);
                            if cc == c {
                                assert(parent_of(self.parents@, c) == n);
                                assert(d2[c] == cand);
                                assert(d2[n] == d1[n]);
                            } else {
                                assert(has_parent(s1, cc));
                                let pp = parent_of(s1, cc);
                                assert(parent_of(self.parents@, cc) == pp);
                                assert(d2[cc] == d1[cc]);
                                assert(d2[pp] <= d1[pp]);
                            }
                        }
                        if settled(*graph, d1, root) {
                            assert forall|cc: G::Node|
                                (#[trigger] graph.spec_children(root).contains(cc)) implies ((
                            d2.dom().contains(cc) && d2[cc] <= d2[root] + graph.spec_edge_weight(
                                root,
                                cc,
                            )) || d2[root] + graph.spec_edge_weight(root, cc) >= i64::MAX) by {
                                if d1.dom().contains(cc) && d1[cc] <= d1[root]
                                    + graph.spec_edge_weight(root, cc) {
                                    assert(d2[cc] <= d1[cc]);
                                }
                            }
                            assert(settled(*graph, d2, root));
                        }
                        assert(node_pot(d2, c) < node_pot(d1, c));
                        assert forall|i: int| 0 <= i < univ_seq.len() implies node_pot(
                            d2,
                            #[trigger] univ_seq[i],
                        ) <= node_pot(d1, univ_seq[i]) by {
                            let x = univ_seq[i];
                            if x != c {
                                assert(node_pot(d2, x) == node_pot(d1, x));
                            }
                        }
                        lemma_pot_sum_lt(univ_seq, d1, d2, c);
                    }
                }
                k = k + 1;
            }
            let flen = frontier.len();
            if flen > self.max_frontier {
                self.max_frontier = flen;
            }
            proof {
                assert forall|cc: G::Node|
                    (#[trigger] graph.spec_children(n).contains(cc)) implies ((
                self.distances@.dom().contains(cc) && self.distances@[cc] <= self.distances@[n]
                    + graph.spec_edge_weight(n, cc)) || self.distances@[n]
                    + graph.spec_edge_weight(n, cc) >= i64::MAX) by {
                    let j = choose|j: int| 0 <= j < ch@.len() && ch@[j] == cc;
                    assert(0 <= j < ch@.len());
                }
                assert(settled(*graph, self.distances@, n));
                lemma_pot_sum_nonneg(univ_seq, self.distances@);
            }
        }
        proof {
            let d = self.distances@;
            assert forall|kk: G::Node| #[trigger] d.dom().contains(kk) implies settled(
                *graph,
                d,
                kk,
            ) by {
                if has_exact_g(frontier@, gvals, kk, d[kk]) {
                    let j = choose|j: int|
                        0 <= j < frontier@.len() && frontier@[j].node == kk && gvals[j] == d[kk];
                }
            }
            assert forall|kk: G::Node, cc: G::Node|
                d.dom().contains(kk) && (#[trigger] graph.spec_children(kk).contains(cc))
                implies ((d.dom().contains(cc) && d[cc] <= d[kk] + graph.spec_edge_weight(
                kk,
                cc,
            )) || d[kk] + graph.spec_edge_weight(kk, cc) >= i64::MAX) by {
                assert(settled(*graph, d, kk));
            }
            assert forall|kk: G::Node| #[trigger] d.dom().contains(kk)
                implies !graph.spec_is_goal(kk) by {
                assert(settled(*graph, d, kk));
            }
            assert forall|p: Seq<G::Node>, m: G::Node|
                #![trigger connects(*graph, p, root, m)]
                connects(*graph, p, root, m) && graph.spec_is_goal(m) implies walk_cost(
                *graph,
                p,
            ) >= i64::MAX by {
                lemma_settled_no_cheap_goal(*graph, d, root, p, m);
            }
            assert forall|p: Seq<G::Node>, m: G::Node|
                #![trigger connects(*graph, p, root, m)]
                connects(*graph, p, root, m) && walk_cost(*graph, p) < i64::MAX
                implies d.dom().contains(m) by {
                lemma_settled_dist_bound(*graph, d, root, p);
            }
            assert(!graph.spec_is_goal(root));
            self.distances.lemma_card();
        }
        None
    }

    /// The stateless variant ignores the heuristic and explores by
    /// cumulative cost alone; it is uniform-cost search.
    fn search(graph: &G, root: G::Node) -> (r: Option<G::Node>)
        ensures
            graph.spec_is_goal(root) ==> r == Some(root),
            r matches Some(n) ==> optimally_reachable(*graph, root, n),
    {
        <Dijkstra<G> as WeightedGraphSearcher<G>>::search(graph, root)
    }

    fn nodes_visited(&self) -> (r: usize) {
        self.distances.len()
    }

    fn is_visited(&self, node: G::Node) -> (r: bool) {
        proof {
            G::node_eq_agrees();
        }
        self.distances.get(node).is_some()
    }

    /// When the heuristic is admissible and never negative, the
    /// reconstructed path of a successful run costs no more than any walk
    /// from the root to any goal.
    fn path(&self) -> (r: Option<Vec<G::Node>>)
        ensures
            r matches Some(p) ==> ((heuristic_admissible(self.spec_graph()) && heuristic_nonneg(
                self.spec_graph(),
            )) ==> forall|q: Seq<G::Node>, m: G::Node|
                #![trigger connects(self.spec_graph(), q, self.spec_run_root(), m)]
                connects(self.spec_graph(), q, self.spec_run_root(), m) && self.spec_graph(
                ).spec_is_goal(m) ==> walk_cost(self.spec_graph(), q) >= walk_cost(
                    self.spec_graph(),
                    p@,
                )),
    {
        proof {
            G::node_eq_agrees();
        }
        match self.solution {
            None => None,
            Some(sol) => {
                let root = match self.root_node {
                    Some(n) => n,
                    None => vstd::pervasive::unreached(),
                };
                proof {
                    lemma_links_lex_to_rank(self.parents@, self.graph@, root, self.distances@);
                }
                let p = rebuild_path::<G>(
                    &self.parents,
                    root,
                    sol,
                    Ghost(self.graph@),
                    Ghost(lex_rank(self.parents@, self.distances@)),
                );
                proof {
                    let g = self.graph@;
                    let dist = self.distances@;
                    let s = self.parents@;
                    lemma_chain_cost_at_most(g, s, dist, root, p@, p@.len() - 1);
                    assert(p@.subrange(0, p@.len() as int) =~= p@);
                    assert(walk_cost(g, p@) <= dist[sol]);
                }
                Some(p)
            },
        }
    }
}

} // verus!
