//! Uniform-cost (Dijkstra) search: a priority frontier keyed by cumulative
//! path cost, goal test at extraction time, and relaxation that may leave
//! stale dominated entries in the frontier rather than removing them.
//!
//! Because the frontier always yields its smallest recorded cost and edge
//! weights are non-negative, the first goal extracted carries the true
//! minimum cost from the root, and the reconstructed path realises it; both
//! facts are part of the contracts here.

use vstd::prelude::*;
use crate::bookkeeping::CostMap;
use crate::bookkeeping::ParentMap;
use crate::bookkeeping::has_parent;
use crate::bookkeeping::parent_of;
use crate::bookkeeping::links_lex;
use crate::bookkeeping::lemma_links_lex_relax;
use crate::bookkeeping::lemma_links_lex_to_rank;
use crate::bookkeeping::lemma_last_entry_push;
use crate::bookkeeping::lex_rank;
use crate::bookkeeping::rebuild_path;
use crate::bookkeeping::pop_min;
use crate::bookkeeping::node_pot;
use crate::bookkeeping::pot_sum;
use crate::bookkeeping::lemma_pot_sum_nonneg;
use crate::bookkeeping::lemma_pot_sum_lt;
use crate::bookkeeping::lemma_settled_no_cheap_goal;
use crate::bookkeeping::lemma_settled_dist_bound;
use crate::graph::Graph;
use crate::graph::WeightedGraph;
use crate::graph::node_eq_facts;
use crate::graph::reachable;
use crate::graph::connects;
use crate::graph::is_walk;
use crate::graph::walk_cost;
use crate::graph::optimally_reachable;
use crate::graph::lemma_connects_trivial;
use crate::graph::lemma_connects_extend;
use crate::graph::lemma_walk_cost_drop_last;
use crate::graphsearcher::WeightedGraphSearcher;
use crate::heapelement::HeapElement;

verus! {

/// Some frontier entry carries node `n` at exactly cost `d`.
pub open spec fn has_exact_entry<N>(f: Seq<HeapElement<N>>, n: N, d: int) -> bool {
    exists|i: int| 0 <= i < f.len() && f[i].node == n && f[i].cost == d
}

/// Every outgoing edge of `k` has been relaxed against `dist`, and `k`
/// failed the goal test: each child is discovered at a cost within one edge
/// of `k`'s, unless even that one edge overflows the representable costs.
pub open spec fn settled<G: WeightedGraph>(g: G, dist: Map<G::Node, int>, k: G::Node) -> bool {
    &&& !g.spec_is_goal(k)
    &&& forall|c: G::Node|
        (#[trigger] g.spec_children(k).contains(c)) ==> ((dist.dom().contains(c) && dist[c]
            <= dist[k] + g.spec_edge_weight(k, c)) || dist[k] + g.spec_edge_weight(k, c)
            >= i64::MAX)
}

/// Removing a frontier entry other than the exact one keeps it present.
pub proof fn lemma_exact_entry_remove<N>(f: Seq<HeapElement<N>>, i: int, n: N, d: int)
    requires
        0 <= i < f.len(),
        has_exact_entry(f, n, d),
        !(f[i].node == n && f[i].cost == d),
    ensures
        has_exact_entry(f.remove(i), n, d),
{
    let j = choose|j: int| 0 <= j < f.len() && f[j].node == n && f[j].cost == d;
    if j < i {
        assert(f.remove(i)[j] == f[j]);
    } else {
        assert(f.remove(i)[j - 1] == f[j]);
    }
}

/// The frontier-cut argument behind Dijkstra's optimality: any walk from the
/// root either costs at least `floor` — a lower bound on every frontier
/// entry — or ends inside the processed region `done` at a cost no less
/// than that node's recorded cost.
proof fn lemma_walk_meets_frontier<G: WeightedGraph>(
    g: G,
    dist: Map<G::Node, int>,
    done: Set<G::Node>,
    f: Seq<HeapElement<G::Node>>,
    root: G::Node,
    floor: int,
    q: Seq<G::Node>,
)
    requires
        dist.dom().contains(root),
        dist[root] == 0,
        floor <= i64::MAX,
        forall|a: G::Node, b: G::Node| 0 <= #[trigger] g.spec_edge_weight(a, b),
        forall|x: G::Node| #[trigger] done.contains(x) ==> dist.dom().contains(x),
        forall|x: G::Node| #[trigger] done.contains(x) ==> settled(g, dist, x),
        forall|k: G::Node|
            #[trigger] dist.dom().contains(k) ==> (has_exact_entry(f, k, dist[k])
                || done.contains(k)),
        forall|i: int| 0 <= i < f.len() ==> floor <= (#[trigger] f[i]).cost,
        is_walk(g, q),
        q[0] == root,
    ensures
        walk_cost(g, q) >= floor || (done.contains(q[q.len() - 1]) && walk_cost(g, q) >= dist[q[
            q.len() - 1]]),
    decreases q.len(),
{
    if q.len() == 1 {
        if !done.contains(root) {
            assert(has_exact_entry(f, root, dist[root]));
            let i = choose|i: int|
                0 <= i < f.len() && f[i].node == root && f[i].cost == dist[root];
            assert(floor <= 0);
        }
    } else {
        let t = q.drop_last();
        assert forall|i: int| 0 <= i < t.len() - 1 implies (#[trigger] g.spec_children(
            t[i],
        )).contains(t[i + 1]) by {
            assert(t[i] == q[i] && t[i + 1] == q[i + 1]);
            assert(g.spec_children(q[i]).contains(q[i + 1]));
        }
        assert(t[0] == root);
        lemma_walk_meets_frontier(g, dist, done, f, root, floor, t);
        lemma_walk_cost_drop_last(g, q);
        let w = g.spec_edge_weight(q[q.len() - 2], q[q.len() - 1]);
        assert(0 <= w);
        if walk_cost(g, t) >= floor {
        } else {
            let x = t[t.len() - 1];
            assert(x == q[q.len() - 2]);
            assert(done.contains(x) && walk_cost(g, t) >= dist[x]);
            let c = q[q.len() - 1];
            assert(g.spec_children(q[q.len() - 2]).contains(c));
            assert(settled(g, dist, x));
            if dist.dom().contains(c) && dist[c] <= dist[x] + w {
                if !done.contains(c) {
                    assert(has_exact_entry(f, c, dist[c]));
                    let i = choose|i: int|
                        0 <= i < f.len() && f[i].node == c && f[i].cost == dist[c];
                    assert(floor <= dist[c]);
                }
            } else {
                assert(dist[x] + w >= i64::MAX);
            }
        }
    }
}

/// Along a chain of parent links whose recorded costs are exact, each
/// prefix of the chain costs exactly what is recorded for its last node.
proof fn lemma_chain_cost<G: WeightedGraph>(
    g: G,
    s: Seq<(G::Node, G::Node)>,
    dist: Map<G::Node, int>,
    root: G::Node,
    p: Seq<G::Node>,
    j: int,
)
    requires
        dist.dom().contains(root),
        dist[root] == 0,
        forall|c: G::Node|
            #[trigger] has_parent(s, c) ==> dist.dom().contains(c) && dist[c] == dist[parent_of(
                s,
                c,
            )] + g.spec_edge_weight(parent_of(s, c), c),
        p.len() >= 1,
        p[0] == root,
        forall|i: int|
            0 <= i < p.len() - 1 ==> has_parent(s, #[trigger] p[i + 1]) && parent_of(s, p[i + 1])
                == p[i],
        0 <= j < p.len(),
    ensures
        dist.dom().contains(p[j]),
        walk_cost(g, p.subrange(0, j + 1)) == dist[p[j]],
    decreases j,
{
    if j == 0 {
        assert(p.subrange(0, 1) =~= seq![root]);
    } else {
        lemma_chain_cost(g, s, dist, root, p, j - 1);
        lemma_walk_cost_drop_last(g, p.subrange(0, j + 1));
        assert(p.subrange(0, j + 1).drop_last() =~= p.subrange(0, j));
        assert(p.subrange(0, j + 1)[j] == p[j]);
        assert(p.subrange(0, j + 1)[j - 1] == p[j - 1]);
        assert(has_parent(s, p[j]) && parent_of(s, p[j]) == p[j - 1]);
    }
}

/// A uniform-cost searcher. The goal it returns carries the minimum cost of
/// any root-to-goal walk, the path it reconstructs realises that cost, and
/// when it reports no solution, every root-to-goal walk costs at least the
/// largest representable cost.
pub struct Dijkstra<G: WeightedGraph> {
    distances: CostMap<G::Node>,
    parents: ParentMap<G::Node>,
    max_frontier: usize,
    solution: Option<G::Node>,
    root_node: Option<G::Node>,
    run_root: Ghost<G::Node>,
    graph: Ghost<G>,
    done: Ghost<Set<G::Node>>,
}

impl<G: WeightedGraph> Dijkstra<G> {
    /// The peak frontier size of the most recent tracked run.
    pub closed spec fn spec_max_frontier(&self) -> usize {
        self.max_frontier
    }

    pub fn new() -> (r: Self)
        ensures
            r.wf(),
            r.spec_solution() is None,
            r.spec_visited() == Set::<G::Node>::empty(),
            r.spec_max_frontier() == 1,
    {
        let r = Dijkstra {
            distances: CostMap::new(),
            parents: ParentMap::new(),
            max_frontier: 1,
            solution: None,
            root_node: None,
            run_root: Ghost(arbitrary()),
            graph: Ghost(arbitrary()),
            done: Ghost(Set::empty()),
        };
        proof {
            assert(r.spec_visited() =~= Set::<G::Node>::empty());
        }
        r
    }

    /// The largest number of frontier entries the most recent tracked run
    /// held at once after processing an extracted node (at least 1, for the
    /// root that seeds the frontier).
    pub fn max_frontier(&self) -> (r: usize)
        ensures
            r == self.spec_max_frontier(),
    {
        self.max_frontier
    }
}

impl<G: WeightedGraph> Default for Dijkstra<G> {
    fn default() -> (r: Self)
        ensures
            r.wf(),
            r.spec_solution() is None,
            r.spec_visited() == Set::<G::Node>::empty(),
    {
        Self::new()
    }
}

impl<G: WeightedGraph> WeightedGraphSearcher<G> for Dijkstra<G> {
    closed spec fn wf(&self) -> bool {
        &&& self.distances.wf()
        &&& links_lex(self.parents@, self.graph@, self.run_root@, self.distances@)
        &&& forall|k: G::Node|
            #[trigger] self.distances@.dom().contains(k) ==> 0 <= self.distances@[k] <= i64::MAX
        &&& (self.root_node matches Some(n) ==> n == self.run_root@)
        &&& (self.solution matches Some(sol) ==> {
            let g = self.graph@;
            let root = self.run_root@;
            let dist = self.distances@;
            &&& self.root_node is Some
            &&& (sol == root || has_parent(self.parents@, sol))
            &&& dist.dom().contains(sol)
            &&& dist.dom().contains(root)
            &&& dist[root] == 0
            &&& g.spec_is_goal(sol)
            &&& forall|q: Seq<G::Node>, m: G::Node|
                #![trigger connects(g, q, root, m)]
                connects(g, q, root, m) && g.spec_is_goal(m) ==> walk_cost(g, q) >= dist[sol]
            &&& forall|c: G::Node|
                #[trigger] has_parent(self.parents@, c) ==> self.done@.contains(parent_of(
                    self.parents@,
                    c,
                )) && dist.dom().contains(c) && dist[c] == dist[parent_of(self.parents@, c)]
                    + g.spec_edge_weight(parent_of(self.parents@, c), c)
            &&& forall|x: G::Node| #[trigger] self.done@.contains(x) ==> dist.dom().contains(x)
            &&& forall|x: G::Node, q: Seq<G::Node>|
                self.done@.contains(x) && #[trigger] connects(g, q, root, x) ==> walk_cost(g, q)
                    >= dist[x]
        })
    }

    closed spec fn spec_graph(&self) -> G {
        self.graph@
    }

    closed spec fn spec_run_root(&self) -> G::Node {
        self.run_root@
    }

    closed spec fn spec_visited(&self) -> Set<G::Node> {
        self.distances@.dom()
    }

    closed spec fn spec_solution(&self) -> Option<G::Node> {
        self.solution
    }

    fn search_tracked(&mut self, graph: &G, root: G::Node) -> (r: Option<G::Node>)
        ensures
            r is None ==> forall|p: Seq<G::Node>, m: G::Node|
                #![trigger connects(*graph, p, root, m)]
                connects(*graph, p, root, m) && walk_cost(*graph, p) < i64::MAX ==> final(self).spec_visited().contains(m),
            graph.spec_is_goal(root) ==> r == Some(root),
            final(self).spec_max_frontier() >= 1,
    {
        proof {
            G::node_eq_agrees();
            graph.children_in_nodes();
            graph.edge_weights_in_range();
        }
        self.graph = Ghost(*graph);
        self.run_root = Ghost(root);
        self.root_node = Some(root);
        self.distances = CostMap::new();
        self.parents = ParentMap::new();
        self.solution = None;
        self.max_frontier = 1;
        self.done = Ghost(Set::empty());
        let ghost univ_seq = graph.spec_nodes().push(root);
        let mut frontier: Vec<HeapElement<G::Node>> = Vec::new();
        frontier.push(HeapElement::new(root, 0));
        self.distances.set(root, 0);
        proof {
            lemma_connects_trivial(*graph, root);
            assert(frontier@[0].node == root && frontier@[0].cost == 0);
            assert(univ_seq[univ_seq.len() - 1] == root);
        }
        while frontier.len() != 0
            invariant
                node_eq_facts::<G::Node>(),
                forall|n: G::Node, c: G::Node|
                    (#[trigger] graph.spec_children(n).contains(c)) ==> graph.spec_nodes().contains(
                        c,
                    ),
                forall|a: G::Node, b: G::Node|
                    0 <= #[trigger] graph.spec_edge_weight(a, b) <= i64::MAX,
                univ_seq == graph.spec_nodes().push(root),
                self.graph@ == *graph,
                self.run_root@ == root,
                self.root_node == Some(root),
                self.solution is None,
                self.distances.wf(),
                1 <= self.max_frontier,
                self.done@.contains(root) || (frontier@.len() == 1 && frontier@[0].node == root),
                self.distances@.dom().contains(root),
                self.distances@[root] == 0,
                forall|k: G::Node|
                    #[trigger] self.distances@.dom().contains(k) ==> 0 <= self.distances@[k]
                        <= i64::MAX,
                forall|k: G::Node|
                    #[trigger] self.distances@.dom().contains(k) ==> univ_seq.contains(k),
                forall|k: G::Node|
                    #[trigger] self.distances@.dom().contains(k) ==> reachable(*graph, root, k),
                forall|k: G::Node|
                    #[trigger] self.distances@.dom().contains(k) ==> (k == root || has_parent(
                        self.parents@,
                        k,
                    )),
                forall|i: int|
                    0 <= i < frontier@.len() ==> {
                        &&& self.distances@.dom().contains((#[trigger] frontier@[i]).node)
                        &&& self.distances@[frontier@[i].node] <= frontier@[i].cost
                        &&& 0 <= frontier@[i].cost
                    },
                forall|k: G::Node|
                    #[trigger] self.distances@.dom().contains(k) ==> (has_exact_entry(
                        frontier@,
                        k,
                        self.distances@[k],
                    ) || self.done@.contains(k)),
                forall|x: G::Node|
                    #[trigger] self.done@.contains(x) ==> self.distances@.dom().contains(x),
                forall|x: G::Node|
                    #[trigger] self.done@.contains(x) ==> settled(*graph, self.distances@, x),
                forall|x: G::Node, q: Seq<G::Node>|
                    self.done@.contains(x) && #[trigger] connects(*graph, q, root, x)
                        ==> walk_cost(*graph, q) >= self.distances@[x],
                forall|x: G::Node, i: int|
                    #![trigger self.done@.contains(x), frontier@[i]]
                    self.done@.contains(x) && 0 <= i < frontier@.len() ==> self.distances@[x]
                        <= frontier@[i].cost,
                forall|c: G::Node|
                    #[trigger] has_parent(self.parents@, c) ==> self.done@.contains(parent_of(
                        self.parents@,
                        c,
                    )) && self.distances@[c] == self.distances@[parent_of(self.parents@, c)]
                        + graph.spec_edge_weight(parent_of(self.parents@, c), c),
                links_lex(self.parents@, *graph, root, self.distances@),
            decreases pot_sum(univ_seq, self.distances@), frontier@.len(),
        {
            let ghost pre_f = frontier@;
            let ghost pre_d = self.distances@;
            let e = match pop_min(&mut frontier) {
                Some(e) => e,
                None => vstd::pervasive::unreached(),
            };
            let ghost rem_i = choose|i: int|
                0 <= i < pre_f.len() && pre_f[i] == e && frontier@ == pre_f.remove(i);
            let n = e.node;
            let cost = e.cost;
            proof {
                pre_f.remove_ensures(rem_i);
                assert(self.distances@.dom().contains(n));
                assert(self.distances@[n] <= cost);
                assert(self.distances@[n] == cost || self.done@.contains(n)) by {
                    if !self.done@.contains(n) {
                        assert(has_exact_entry(pre_f, n, self.distances@[n]));
                        let j = choose|j: int|
                            0 <= j < pre_f.len() && pre_f[j].node == n && pre_f[j].cost
                                == self.distances@[n];
                        assert(cost <= pre_f[j].cost);
                    }
                }
                assert forall|i: int| 0 <= i < frontier@.len() implies {
                    &&& self.distances@.dom().contains((#[trigger] frontier@[i]).node)
                    &&& self.distances@[frontier@[i].node] <= frontier@[i].cost
                    &&& 0 <= frontier@[i].cost
                    &&& cost <= frontier@[i].cost
                } by {
                    if i < rem_i {
                        assert(frontier@[i] == pre_f[i]);
                    } else {
                        assert(frontier@[i] == pre_f[i + 1]);
                    }
                }
                assert forall|x: G::Node| #[trigger] self.done@.contains(x)
                    implies self.distances@[x] <= cost by {
                    assert(self.distances@[x] <= pre_f[rem_i].cost);
                }
                assert forall|k: G::Node|
                    #[trigger] self.distances@.dom().contains(k) && k != n implies (
                has_exact_entry(frontier@, k, self.distances@[k]) || self.done@.contains(k)) by {
                    if !self.done@.contains(k) && has_exact_entry(pre_f, k, self.distances@[k]) {
                        lemma_exact_entry_remove(pre_f, rem_i, k, self.distances@[k]);
                    }
                }
            }
            let ghost pre_done = self.done@;
            if graph.is_goal(n) {
                proof {
                    assert(!self.done@.contains(n));
                    assert(self.distances@[n] == cost);
                    if graph.spec_is_goal(root) {
                        if self.done@.contains(root) {
                            assert(settled(*graph, self.distances@, root));
                        } else {
                            assert(pre_f.len() == 1 && pre_f[0].node == root);
                            assert(pre_f[rem_i] == e);
                            assert(n == root);
                        }
                    }
                    assert forall|q: Seq<G::Node>, m: G::Node|
                        #![trigger connects(*graph, q, root, m)]
                        connects(*graph, q, root, m) && graph.spec_is_goal(m)
                        implies walk_cost(*graph, q) >= self.distances@[n] by {
                        lemma_walk_meets_frontier(
                            *graph,
                            self.distances@,
                            self.done@,
                            pre_f,
                            root,
                            cost as int,
                            q,
                        );
                        if walk_cost(*graph, q) < cost {
                            assert(self.done@.contains(m));
                            assert(settled(*graph, self.distances@, m));
                        }
                    }
                    self.distances.lemma_card();
                }
                self.solution = Some(n);
                return Some(n);
            }
            let ch = graph.children(n);
            let mut k: usize = 0;
            while k < ch.len()
                invariant
                    node_eq_facts::<G::Node>(),
                    forall|nn: G::Node, c: G::Node|
                        (#[trigger] graph.spec_children(nn).contains(c))
                            ==> graph.spec_nodes().contains(c),
                    forall|a: G::Node, b: G::Node|
                        0 <= #[trigger] graph.spec_edge_weight(a, b) <= i64::MAX,
                    univ_seq == graph.spec_nodes().push(root),
                    ch@ == graph.spec_children(n),
                    0 <= k <= ch@.len(),
                    !graph.spec_is_goal(n),
                    0 <= cost <= i64::MAX,
                    self.graph@ == *graph,
                    self.run_root@ == root,
                    self.root_node == Some(root),
                    self.solution is None,
                    self.distances.wf(),
                    1 <= self.max_frontier,
                    self.done@ == pre_done,
                    self.distances@.dom().contains(root),
                    self.distances@[root] == 0,
                    self.distances@.dom().contains(n),
                    self.distances@[n] <= cost,
                    self.distances@[n] == cost || self.done@.contains(n),
                    forall|kk: G::Node|
                        #[trigger] self.distances@.dom().contains(kk) ==> 0 <= self.distances@[kk]
                            <= i64::MAX,
                    forall|kk: G::Node|
                        #[trigger] self.distances@.dom().contains(kk) ==> univ_seq.contains(kk),
                    forall|kk: G::Node|
                        #[trigger] self.distances@.dom().contains(kk) ==> reachable(
                            *graph,
                            root,
                            kk,
                        ),
                    forall|kk: G::Node|
                        #[trigger] self.distances@.dom().contains(kk) ==> (kk == root
                            || has_parent(self.parents@, kk)),
                    forall|i: int|
                        0 <= i < frontier@.len() ==> {
                            &&& self.distances@.dom().contains((#[trigger] frontier@[i]).node)
                            &&& self.distances@[frontier@[i].node] <= frontier@[i].cost
                            &&& 0 <= frontier@[i].cost
                            &&& cost <= frontier@[i].cost
                        },
                    forall|kk: G::Node|
                        #[trigger] self.distances@.dom().contains(kk) && kk != n ==> (
                        has_exact_entry(frontier@, kk, self.distances@[kk])
                            || self.done@.contains(kk)),
                    forall|x: G::Node|
                        #[trigger] self.done@.contains(x) ==> self.distances@.dom().contains(x),
                    forall|x: G::Node|
                        #[trigger] self.done@.contains(x) ==> settled(*graph, self.distances@, x),
                    forall|x: G::Node| #[trigger] self.done@.contains(x) ==> self.distances@[x]
                        <= cost,
                    forall|x: G::Node, q: Seq<G::Node>|
                        self.done@.contains(x) && #[trigger] connects(*graph, q, root, x)
                            ==> walk_cost(*graph, q) >= self.distances@[x],
                    forall|c: G::Node|
                        #[trigger] has_parent(self.parents@, c) ==> (self.done@.contains(parent_of(
                            self.parents@,
                            c,
                        )) || parent_of(self.parents@, c) == n) && self.distances@[c]
                            == self.distances@[parent_of(self.parents@, c)]
                            + graph.spec_edge_weight(parent_of(self.parents@, c), c),
                    forall|j: int|
                        0 <= j < k ==> {
                            let c = #[trigger] ch@[j];
                            ||| (self.distances@.dom().contains(c) && self.distances@[c] <= cost
                                + graph.spec_edge_weight(n, c))
                            ||| cost + graph.spec_edge_weight(n, c) >= i64::MAX
                        },
                    links_lex(self.parents@, *graph, root, self.distances@),
                    pot_sum(univ_seq, self.distances@) <= pot_sum(univ_seq, pre_d),
                    self.distances@ != pre_d ==> pot_sum(univ_seq, self.distances@) < pot_sum(
                        univ_seq,
                        pre_d,
                    ),
                    self.distances@ == pre_d ==> frontier@ == pre_f.remove(rem_i),
                decreases ch@.len() - k,
            {
                let c = ch[k];
                proof {
                    assert(ch@[k as int] == c);
                    assert(graph.spec_children(n).contains(c));
                }
                let w = graph.edge_weight(n, c);
                let cand = if cost <= i64::MAX - w {
                    cost + w
                } else {
                    i64::MAX
                };
                let cur = match self.distances.get(c) {
                    Some(v) => v,
                    None => i64::MAX,
                };
                if cand < cur {
                    proof {
                        assert(c != n);
                        assert(c != root);
                        assert(!self.done@.contains(c));
                        assert(!self.done@.contains(n) ==> self.distances@[n] == cost);
                        assert(self.done@.contains(n) ==> {
                            &&& settled(*graph, self.distances@, n)
                            &&& (self.distances@.dom().contains(c) ==> self.distances@[c]
                                <= self.distances@[n] + w)
                        });
                        if self.done@.contains(n) {
                            assert(settled(*graph, self.distances@, n));
                            if self.distances@.dom().contains(c) {
                                assert(self.distances@[c] <= self.distances@[n] + w || self.distances@[n] + w >= i64::MAX);
                                assert(self.distances@[n] <= cost);
                                assert(false);
                            } else {
                                assert(self.distances@[n] + w >= i64::MAX);
                                assert(false);
                            }
                        }
                        assert(self.distances@[n] == cost);
                        assert(cand == cost + w);
                        assert(self.distances@[n] <= cand);
                        lemma_links_lex_relax(
                            self.parents@,
                            *graph,
                            root,
                            self.distances@,
                            c,
                            n,
                            cand as int,
                        );
                        let pr = choose|p: Seq<G::Node>| connects(*graph, p, root, n);
                        lemma_connects_extend(*graph, pr, root, n, c);
                        let ji = choose|ji: int|
                            0 <= ji < graph.spec_nodes().len() && graph.spec_nodes()[ji] == c;
                        assert(univ_seq[ji] == c);
                        assert(univ_seq.contains(c));
                    }
                    let ghost d1 = self.distances@;
                    let ghost f1 = frontier@;
                    let ghost s1 = self.parents@;
                    self.parents.record(c, n);
                    self.distances.set(c, cand);
                    frontier.push(HeapElement::new(c, cand));
                    proof {
                        let d2 = self.distances@;
                        let f2 = frontier@;
                        assert(f2[f2.len() - 1].node == c && f2[f2.len() - 1].cost == cand);
                        assert(d2 == d1.insert(c, cand as int));
                        assert forall|kk: G::Node|
                            #[trigger] d2.dom().contains(kk) implies (kk == root || has_parent(
                            self.parents@,
                            kk,
                        )) by {
                            lemma_last_entry_push(s1, (c, n), kk);
                        }
                        assert forall|i: int| 0 <= i < f2.len() implies {
                            &&& d2.dom().contains((#[trigger] f2[i]).node)
                            &&& d2[f2[i].node] <= f2[i].cost
                            &&& 0 <= f2[i].cost
                            &&& cost <= f2[i].cost
                        } by {
                            if i < f1.len() {
                                assert(f2[i] == f1[i]);
                                let x = f1[i].node;
                                assert(d1.dom().contains(x));
                                assert(d1[x] <= f1[i].cost);
                            }
                        }
                        assert(has_exact_entry(f2, c, d2[c]));
                        assert forall|kk: G::Node|
                            #[trigger] d2.dom().contains(kk) && kk != n implies (has_exact_entry(
                            f2,
                            kk,
                            d2[kk],
                        ) || self.done@.contains(kk)) by {
                            if kk != c && !self.done@.contains(kk) {
                                assert(d1.dom().contains(kk));
                                assert(d2[kk] == d1[kk]);
                                assert(has_exact_entry(f1, kk, d1[kk]));
                                let j = choose|j: int|
                                    0 <= j < f1.len() && f1[j].node == kk && f1[j].cost == d1[kk];
                                assert(f2[j] == f1[j]);
                                assert(has_exact_entry(f2, kk, d2[kk]));
                            }
                        }
                        assert forall|x: G::Node| #[trigger] self.done@.contains(x)
                            implies settled(*graph, d2, x) by {
                            assert(settled(*graph, d1, x));
                            assert(x != c);
                            assert forall|cc: G::Node|
                                (#[trigger] graph.spec_children(x).contains(cc)) implies ((
                            d2.dom().contains(cc) && d2[cc] <= d2[x] + graph.spec_edge_weight(
                                x,
                                cc,
                            )) || d2[x] + graph.spec_edge_weight(x, cc) >= i64::MAX) by {
                                if d1.dom().contains(cc) && d1[cc] <= d1[x]
                                    + graph.spec_edge_weight(x, cc) {
                                    assert(d2[cc] <= d1[cc]);
                                }
                            }
                        }
                        assert forall|cc: G::Node|
                            #[trigger] has_parent(self.parents@, cc) implies (self.done@.contains(
                            parent_of(self.parents@, cc),
                        ) || parent_of(self.parents@, cc) == n) && d2[cc] == d2[parent_of(
                            self.parents@,
                            cc,
                        )] + graph.spec_edge_weight(parent_of(self.parents@, cc), cc) by {
                            lemma_last_entry_push(s1, (c, n), cc);
                            if cc == c {
                                assert(parent_of(self.parents@, c) == n);
                                assert(d2[c] == cand);
                                assert(d2[n] == d1[n]);
                            } else {
                                assert(has_parent(s1, cc));
                                let pp = parent_of(s1, cc);
                                assert(parent_of(self.parents@, cc) == pp);
                                assert(pp != c);
                                assert(d2[cc] == d1[cc] && d2[pp] == d1[pp]);
                            }
                        }
                        assert(node_pot(d2, c) < node_pot(d1, c));
                        assert forall|i: int| 0 <= i < univ_seq.len() implies node_pot(
                            d2,
                            #[trigger] univ_seq[i],
                        ) <= node_pot(d1, univ_seq[i]) by {
                            let x = univ_seq[i];
                            if x != c {
                                assert(node_pot(d2, x) == node_pot(d1, x));
                            }
                        }
                        lemma_pot_sum_lt(univ_seq, d1, d2, c);
                    }
                }
                k = k + 1;
            }
            let flen = frontier.len();
            if flen > self.max_frontier {
                self.max_frontier = flen;
            }
            proof {
                if !self.done@.contains(n) {
                    assert(self.distances@[n] == cost);
                    assert forall|cc: G::Node|
                        (#[trigger] graph.spec_children(n).contains(cc)) implies ((
                    self.distances@.dom().contains(cc) && self.distances@[cc] <= self.distances@[n]
                        + graph.spec_edge_weight(n, cc)) || self.distances@[n]
                        + graph.spec_edge_weight(n, cc) >= i64::MAX) by {
                        let j = choose|j: int| 0 <= j < ch@.len() && ch@[j] == cc;
                        assert(0 <= j < ch@.len());
                    }
                    assert(settled(*graph, self.distances@, n));
                    assert forall|q2: Seq<G::Node>| #[trigger] connects(*graph, q2, root, n)
                        implies walk_cost(*graph, q2) >= self.distances@[n] by {
                        lemma_walk_meets_frontier(
                            *graph,
                            self.distances@,
                            self.done@.insert(n),
                            frontier@,
                            root,
                            cost as int,
                            q2,
                        );
                    }
                    self.done = Ghost(self.done@.insert(n));
                    assert forall|c: G::Node|
                        #[trigger] has_parent(self.parents@, c) implies self.done@.contains(
                        parent_of(self.parents@, c),
                    ) by {}
                }
                if !pre_done.contains(root) {
                    assert(pre_f.len() == 1 && pre_f[0].node == root);
                    assert(pre_f[rem_i] == e);
                    assert(n == root);
                    assert(self.done@.contains(root));
                }
                lemma_pot_sum_nonneg(univ_seq, self.distances@);
            }
        }
        proof {
            let d = self.distances@;
            assert forall|kk: G::Node| #[trigger] d.dom().contains(kk) implies settled(
                *graph,
                d,
                kk,
            ) by {
                if has_exact_entry(frontier@, kk, d[kk]) {
                    let j = choose|j: int|
                        0 <= j < frontier@.len() && frontier@[j].node == kk && frontier@[j].cost
                            == d[kk];
                }
            }
            assert forall|kk: G::Node, cc: G::Node|
                d.dom().contains(kk) && (#[trigger] graph.spec_children(kk).contains(cc))
                implies ((d.dom().contains(cc) && d[cc] <= d[kk] + graph.spec_edge_weight(
                kk,
                cc,
            )) || d[kk] + graph.spec_edge_weight(kk, cc) >= i64::MAX) by {
                assert(settled(*graph, d, kk));
            }
            assert forall|kk: G::Node| #[trigger] d.dom().contains(kk)
                implies !graph.spec_is_goal(kk) by {
                assert(settled(*graph, d, kk));
            }
            assert forall|p: Seq<G::Node>, m: G::Node|
                #![trigger connects(*graph, p, root, m)]
                connects(*graph, p, root, m) && graph.spec_is_goal(m) implies walk_cost(
                *graph,
                p,
            ) >= i64::MAX by {
                lemma_settled_no_cheap_goal(*graph, d, root, p, m);
            }
            assert forall|p: Seq<G::Node>, m: G::Node|
                #![trigger connects(*graph, p, root, m)]
                connects(*graph, p, root, m) && walk_cost(*graph, p) < i64::MAX
                implies d.dom().contains(m) by {
                lemma_settled_dist_bound(*graph, d, root, p);
            }
            assert(!graph.spec_is_goal(root));
            self.distances.lemma_card();
        }
        None
    }

    #[verifier::rlimit(100)]
    #[verifier::spinoff_prover]
    fn search(graph: &G, root: G::Node) -> (r: Option<G::Node>)
        ensures
            graph.spec_is_goal(root) ==> r == Some(root),
            r matches Some(n) ==> optimally_reachable(*graph, root, n),
    {
        proof {
            G::node_eq_agrees();
            graph.children_in_nodes();
            graph.edge_weights_in_range();
        }
        let ghost univ_seq = graph.spec_nodes().push(root);
        let mut distances: CostMap<G::Node> = CostMap::new();
        let mut frontier: Vec<HeapElement<G::Node>> = Vec::new();
        distances.set(root, 0);
        frontier.push(HeapElement::new(root, 0));
        let ghost mut done: Set<G::Node> = Set::empty();
        let ghost mut route: Map<G::Node, Seq<G::Node>> = Map::empty().insert(root, seq![root]);
        proof {
            lemma_connects_trivial(*graph, root);
            assert(frontier@[0].node == root && frontier@[0].cost == 0);
            assert(univ_seq[univ_seq.len() - 1] == root);
            assert(walk_cost(*graph, route[root]) == 0);
        }
        while frontier.len() != 0
            invariant
                node_eq_facts::<G::Node>(),
                forall|n: G::Node, c: G::Node|
                    (#[trigger] graph.spec_children(n).contains(c)) ==> graph.spec_nodes().contains(
                        c,
                    ),
                forall|a: G::Node, b: G::Node|
                    0 <= #[trigger] graph.spec_edge_weight(a, b) <= i64::MAX,
                univ_seq == graph.spec_nodes().push(root),
                distances.wf(),
                done.contains(root) || (frontier@.len() == 1 && frontier@[0].node == root),
                distances@.dom().contains(root),
                distances@[root] == 0,
                forall|k: G::Node|
                    #[trigger] distances@.dom().contains(k) ==> 0 <= distances@[k] <= i64::MAX,
                forall|k: G::Node|
                    #[trigger] distances@.dom().contains(k) ==> univ_seq.contains(k),
                forall|k: G::Node|
                    #[trigger] distances@.dom().contains(k) ==> reachable(*graph, root, k),
                forall|i: int|
                    0 <= i < frontier@.len() ==> {
                        &&& distances@.dom().contains((#[trigger] frontier@[i]).node)
                        &&& distances@[frontier@[i].node] <= frontier@[i].cost
                        &&& 0 <= frontier@[i].cost
                    },
                forall|k: G::Node|
                    #[trigger] distances@.dom().contains(k) ==> (has_exact_entry(
                        frontier@,
                        k,
                        distances@[k],
                    ) || done.contains(k)),
                forall|x: G::Node| #[trigger] done.contains(x) ==> distances@.dom().contains(x),
                forall|x: G::Node| #[trigger] done.contains(x) ==> settled(*graph, distances@, x),
                forall|x: G::Node, i: int|
                    #![trigger done.contains(x), frontier@[i]]
                    done.contains(x) && 0 <= i < frontier@.len() ==> distances@[x] <= frontier@[
                        i].cost,
                forall|k: G::Node|
                    #[trigger] distances@.dom().contains(k) ==> (connects(
                        *graph,
                        route[k],
                        root,
                        k,
                    ) && walk_cost(*graph, route[k]) == distances@[k]),
            decreases pot_sum(univ_seq, distances@), frontier@.len(),
        {
            let ghost pre_f = frontier@;
            let ghost pre_d = distances@;
            let e = match pop_min(&mut frontier) {
                Some(e) => e,
                None => vstd::pervasive::unreached(),
            };
            let ghost rem_i = choose|i: int|
                0 <= i < pre_f.len() && pre_f[i] == e && frontier@ == pre_f.remove(i);
            let n = e.node;
            let cost = e.cost;
            let ghost pre_done = done;
            proof {
                pre_f.remove_ensures(rem_i);
                assert(distances@.dom().contains(n));
                assert(distances@[n] <= cost);
                assert(distances@[n] == cost || done.contains(n)) by {
                    if !done.contains(n) {
                        assert(has_exact_entry(pre_f, n, distances@[n]));
                        let j = choose|j: int|
                            0 <= j < pre_f.len() && pre_f[j].node == n && pre_f[j].cost
                                == distances@[n];
                        assert(cost <= pre_f[j].cost);
                    }
                }
                assert forall|i: int| 0 <= i < frontier@.len() implies {
                    &&& distances@.dom().contains((#[trigger] frontier@[i]).node)
                    &&& distances@[frontier@[i].node] <= frontier@[i].cost
                    &&& 0 <= frontier@[i].cost
                    &&& cost <= frontier@[i].cost
                } by {
                    if i < rem_i {
                        assert(frontier@[i] == pre_f[i]);
                    } else {
                        assert(frontier@[i] == pre_f[i + 1]);
                    }
                }
                assert forall|x: G::Node| #[trigger] done.contains(x) implies distances@[x]
                    <= cost by {
                    assert(distances@[x] <= pre_f[rem_i].cost);
                }
                assert forall|k: G::Node|
                    #[trigger] distances@.dom().contains(k) && k != n implies (has_exact_entry(
                    frontier@,
                    k,
                    distances@[k],
                ) || done.contains(k)) by {
                    if !done.contains(k) && has_exact_entry(pre_f, k, distances@[k]) {
                        lemma_exact_entry_remove(pre_f, rem_i, k, distances@[k]);
                    }
                }
            }
            if graph.is_goal(n) {
                proof {
                    assert(!done.contains(n));
                    assert(distances@[n] == cost);
                    if graph.spec_is_goal(root) {
                        if done.contains(root) {
                            assert(settled(*graph, distances@, root));
                        } else {
                            assert(pre_f.len() == 1 && pre_f[0].node == root);
                            assert(pre_f[rem_i] == e);
                            assert(n == root);
                        }
                    }
                    assert forall|q: Seq<G::Node>, m: G::Node|
                        #![trigger connects(*graph, q, root, m)]
                        connects(*graph, q, root, m) && graph.spec_is_goal(m)
                        implies walk_cost(*graph, q) >= distances@[n] by {
                        lemma_walk_meets_frontier(
                            *graph,
                            distances@,
                            done,
                            pre_f,
                            root,
                            cost as int,
                            q,
                        );
                        if walk_cost(*graph, q) < cost {
                            assert(done.contains(m));
                            assert(settled(*graph, distances@, m));
                        }
                    }
                    let wit = route[n];
                    assert(connects(*graph, wit, root, n) && walk_cost(*graph, wit)
                        == distances@[n]);
                    assert forall|q: Seq<G::Node>, m: G::Node|
                        #![trigger connects(*graph, q, root, m)]
                        connects(*graph, q, root, m) && graph.spec_is_goal(m)
                        implies walk_cost(*graph, q) >= walk_cost(*graph, wit) by {
                        assert(walk_cost(*graph, q) >= distances@[n]);
                    }
                    assert(optimally_reachable(*graph, root, n));
                }
                return Some(n);
            }
            let ch = graph.children(n);
            let mut k: usize = 0;
            while k < ch.len()
                invariant
                    node_eq_facts::<G::Node>(),
                    forall|nn: G::Node, c: G::Node|
                        (#[trigger] graph.spec_children(nn).contains(c))
                            ==> graph.spec_nodes().contains(c),
                    forall|a: G::Node, b: G::Node|
                        0 <= #[trigger] graph.spec_edge_weight(a, b) <= i64::MAX,
                    univ_seq == graph.spec_nodes().push(root),
                    ch@ == graph.spec_children(n),
                    0 <= k <= ch@.len(),
                    !graph.spec_is_goal(n),
                    0 <= cost,
                    distances.wf(),
                    done == pre_done,
                    distances@.dom().contains(root),
                    distances@[root] == 0,
                    distances@.dom().contains(n),
                    distances@[n] <= cost,
                    distances@[n] == cost || done.contains(n),
                    forall|kk: G::Node|
                        #[trigger] distances@.dom().contains(kk) ==> 0 <= distances@[kk]
                            <= i64::MAX,
                    forall|kk: G::Node|
                        #[trigger] distances@.dom().contains(kk) ==> univ_seq.contains(kk),
                    forall|kk: G::Node|
                        #[trigger] distances@.dom().contains(kk) ==> reachable(*graph, root, kk),
                    forall|i: int|
                        0 <= i < frontier@.len() ==> {
                            &&& distances@.dom().contains((#[trigger] frontier@[i]).node)
                            &&& distances@[frontier@[i].node] <= frontier@[i].cost
                            &&& 0 <= frontier@[i].cost
                            &&& cost <= frontier@[i].cost
                        },
                    forall|kk: G::Node|
                        #[trigger] distances@.dom().contains(kk) && kk != n ==> (has_exact_entry(
                            frontier@,
                            kk,
                            distances@[kk],
                        ) || done.contains(kk)),
                    forall|x: G::Node| #[trigger] done.contains(x) ==> distances@.dom().contains(
                        x,
                    ),
                    forall|x: G::Node| #[trigger] done.contains(x) ==> settled(
                        *graph,
                        distances@,
                        x,
                    ),
                    forall|x: G::Node| #[trigger] done.contains(x) ==> distances@[x] <= cost,
                    forall|kk: G::Node|
                        #[trigger] distances@.dom().contains(kk) ==> (connects(
                            *graph,
                            route[kk],
                            root,
                            kk,
                        ) && walk_cost(*graph, route[kk]) == distances@[kk]),
                    forall|j: int|
                        0 <= j < k ==> {
                            let c = #[trigger] ch@[j];
                            ||| (distances@.dom().contains(c) && distances@[c] <= cost
                                + graph.spec_edge_weight(n, c))
                            ||| cost + graph.spec_edge_weight(n, c) >= i64::MAX
                        },
                    pot_sum(univ_seq, distances@) <= pot_sum(univ_seq, pre_d),
                    distances@ != pre_d ==> pot_sum(univ_seq, distances@) < pot_sum(
                        univ_seq,
                        pre_d,
                    ),
                    distances@ == pre_d ==> frontier@ == pre_f.remove(rem_i),
                decreases ch@.len() - k,
            {
                let c = ch[k];
                proof {
                    assert(ch@[k as int] == c);
                    assert(graph.spec_children(n).contains(c));
                }
                let w = graph.edge_weight(n, c);
                let cand = if cost <= i64::MAX - w {
                    cost + w
                } else {
                    i64::MAX
                };
                let cur = match distances.get(c) {
                    Some(v) => v,
                    None => i64::MAX,
                };
                if cand < cur {
                    proof {
                        assert(c != n);
                        if done.contains(n) {
                            assert(settled(*graph, distances@, n));
                            if distances@.dom().contains(c) {
                                assert(distances@[c] <= distances@[n] + w
                                    || distances@[n] + w >= i64::MAX);
                                assert(distances@[n] <= cost);
                                assert(false);
                            } else {
                                assert(distances@[n] + w >= i64::MAX);
                                assert(false);
                            }
                        }
                        assert(distances@[n] == cost);
                        assert(cand == cost + w);
                        let pr = route[n];
                        assert(connects(*graph, pr, root, n));
                        lemma_connects_extend(*graph, pr, root, n, c);
                        lemma_walk_cost_drop_last(*graph, pr.push(c));
                        assert(pr.push(c).drop_last() =~= pr);
                        assert(pr.push(c)[pr.len() as int] == c);
                        assert(pr.push(c)[pr.len() - 1] == pr[pr.len() - 1]);
                        assert(walk_cost(*graph, pr.push(c)) == distances@[n] + w);
                        let ji = choose|ji: int|
                            0 <= ji < graph.spec_nodes().len() && graph.spec_nodes()[ji] == c;
                        assert(univ_seq[ji] == c);
                        assert(univ_seq.contains(c));
                    }
                    let ghost d1 = distances@;
                    let ghost f1 = frontier@;
                    distances.set(c, cand);
                    frontier.push(HeapElement::new(c, cand));
                    proof {
                        route = route.insert(c, route[n].push(c));
                        let d2 = distances@;
                        let f2 = frontier@;
                        assert(f2[f2.len() - 1].node == c && f2[f2.len() - 1].cost == cand);
                        assert(d2 == d1.insert(c, cand as int));
                        assert forall|i: int| 0 <= i < f2.len() implies {
                            &&& d2.dom().contains((#[trigger] f2[i]).node)
                            &&& d2[f2[i].node] <= f2[i].cost
                            &&& 0 <= f2[i].cost
                            &&& cost <= f2[i].cost
                        } by {
                            if i < f1.len() {
                                assert(f2[i] == f1[i]);
                                let x = f1[i].node;
                                assert(d1.dom().contains(x));
                                assert(d1[x] <= f1[i].cost);
                            }
                        }
                        assert(has_exact_entry(f2, c, d2[c]));
                        assert forall|kk: G::Node|
                            #[trigger] d2.dom().contains(kk) && kk != n implies (has_exact_entry(
                            f2,
                            kk,
                            d2[kk],
                        ) || done.contains(kk)) by {
                            if kk != c && !done.contains(kk) {
                                assert(d1.dom().contains(kk));
                                assert(d2[kk] == d1[kk]);
                                assert(has_exact_entry(f1, kk, d1[kk]));
                                let j = choose|j: int|
                                    0 <= j < f1.len() && f1[j].node == kk && f1[j].cost == d1[kk];
                                assert(f2[j] == f1[j]);
                                assert(has_exact_entry(f2, kk, d2[kk]));
                            }
                        }
                        assert forall|x: G::Node| #[trigger] done.contains(x) implies settled(
                            *graph,
                            d2,
                            x,
                        ) by {
                            assert(settled(*graph, d1, x));
                            assert(x != c);
                            assert forall|cc: G::Node|
                                (#[trigger] graph.spec_children(x).contains(cc)) implies ((
                            d2.dom().contains(cc) && d2[cc] <= d2[x] + graph.spec_edge_weight(
                                x,
                                cc,
                            )) || d2[x] + graph.spec_edge_weight(x, cc) >= i64::MAX) by {
                                if d1.dom().contains(cc) && d1[cc] <= d1[x]
                                    + graph.spec_edge_weight(x, cc) {
                                    assert(d2[cc] <= d1[cc]);
                                }
                            }
                        }
                        assert forall|kk: G::Node|
                            #[trigger] d2.dom().contains(kk) implies (connects(
                            *graph,
                            route[kk],
                            root,
                            kk,
                        ) && walk_cost(*graph, route[kk]) == d2[kk]) by {
                            if kk != c {
                                assert(d1.dom().contains(kk));
                                assert(d2[kk] == d1[kk]);
                            }
                        }
                        assert(node_pot(d2, c) < node_pot(d1, c));
                        assert forall|i: int| 0 <= i < univ_seq.len() implies node_pot(
                            d2,
                            #[trigger] univ_seq[i],
                        ) <= node_pot(d1, univ_seq[i]) by {
                            let x = univ_seq[i];
                            if x != c {
                                assert(node_pot(d2, x) == node_pot(d1, x));
                            }
                        }
                        lemma_pot_sum_lt(univ_seq, d1, d2, c);
                    }
                }
                k = k + 1;
            }
            proof {
                if !done.contains(n) {
                    assert(distances@[n] == cost);
                    assert forall|cc: G::Node|
                        (#[trigger] graph.spec_children(n).contains(cc)) implies ((
                    distances@.dom().contains(cc) && distances@[cc] <= distances@[n]
                        + graph.spec_edge_weight(n, cc)) || distances@[n] + graph.spec_edge_weight(
                        n,
                        cc,
                    ) >= i64::MAX) by {
                        let j = choose|j: int| 0 <= j < ch@.len() && ch@[j] == cc;
                        assert(0 <= j < ch@.len());
                    }
                    assert(settled(*graph, distances@, n));
                    done = done.insert(n);
                }
                if !pre_done.contains(root) {
                    assert(pre_f.len() == 1 && pre_f[0].node == root);
                    assert(pre_f[rem_i] == e);
                    assert(n == root);
                    assert(done.contains(root));
                }
                lemma_pot_sum_nonneg(univ_seq, distances@);
            }
        }
        proof {
            assert forall|p: Seq<G::Node>, m: G::Node|
                #![trigger connects(*graph, p, root, m)]
                connects(*graph, p, root, m) && graph.spec_is_goal(m) implies walk_cost(
                *graph,
                p,
            ) >= i64::MAX by {
                let d = distances@;
                assert forall|kk: G::Node| #[trigger] d.dom().contains(kk) implies settled(
                    *graph,
                    d,
                    kk,
                ) by {
                    if has_exact_entry(frontier@, kk, d[kk]) {
                        let j = choose|j: int|
                            0 <= j < frontier@.len() && frontier@[j].node == kk && frontier@[j].cost
                                == d[kk];
                    }
                }
                assert forall|kk: G::Node, cc: G::Node|
                    d.dom().contains(kk) && (#[trigger] graph.spec_children(kk).contains(cc))
                    implies ((d.dom().contains(cc) && d[cc] <= d[kk] + graph.spec_edge_weight(
                    kk,
                    cc,
                )) || d[kk] + graph.spec_edge_weight(kk, cc) >= i64::MAX) by {
                    assert(settled(*graph, d, kk));
                }
                assert forall|kk: G::Node| #[trigger] d.dom().contains(kk)
                    implies !graph.spec_is_goal(kk) by {
                    assert(settled(*graph, d, kk));
                }
                lemma_settled_no_cheap_goal(*graph, d, root, p, m);
            }
            assert(!graph.spec_is_goal(root));
        }
        None
    }

    fn nodes_visited(&self) -> (r: usize) {
        self.distances.len()
    }

    fn is_visited(&self, node: G::Node) -> (r: bool) {
        proof {
            G::node_eq_agrees();
        }
        self.distances.get(node).is_some()
    }

    /// The reconstructed path of a successful run realises the least cost:
    /// it costs no more than any walk from the root to any goal, and each of
    /// its prefixes costs no more than any walk to the node it ends at.
    fn path(&self) -> (r: Option<Vec<G::Node>>)
        ensures
            r matches Some(p) ==> {
                let g = self.spec_graph();
                let root = self.spec_run_root();
                &&& forall|q: Seq<G::Node>, m: G::Node|
                    #![trigger connects(g, q, root, m)]
                    connects(g, q, root, m) && g.spec_is_goal(m) ==> walk_cost(g, q) >= walk_cost(
                        g,
                        p@,
                    )
                &&& forall|i: int, q: Seq<G::Node>|
                    0 <= i < p@.len() && #[trigger] connects(g, q, root, p@[i]) ==> walk_cost(g, q)
                        >= walk_cost(g, p@.subrange(0, i + 1))
            },
    {
        proof {
            G::node_eq_agrees();
        }
        match self.solution {
            None => None,
            Some(sol) => {
                let root = match self.root_node {
                    Some(n) => n,
                    None => vstd::pervasive::unreached(),
                };
                proof {
                    lemma_links_lex_to_rank(self.parents@, self.graph@, root, self.distances@);
                }
                let p = rebuild_path::<G>(
                    &self.parents,
                    root,
                    sol,
                    Ghost(self.graph@),
                    Ghost(lex_rank(self.parents@, self.distances@)),
                );
                proof {
                    let g = self.graph@;
                    let dist = self.distances@;
                    let s = self.parents@;
                    assert forall|i: int| 0 <= i < p@.len() implies dist.dom().contains(
                        #[trigger] p@[i],
                    ) && walk_cost(g, p@.subrange(0, i + 1)) == dist[p@[i]] by {
                        lemma_chain_cost(g, s, dist, root, p@, i);
                    }
                    assert(p@.subrange(0, p@.len() as int) =~= p@);
                    assert(walk_cost(g, p@) == dist[sol]);
                    assert forall|i: int, q: Seq<G::Node>|
                        0 <= i < p@.len() && #[trigger] connects(g, q, root, p@[i])
                        implies walk_cost(g, q) >= walk_cost(g, p@.subrange(0, i + 1)) by {
                        if i < p@.len() - 1 {
                            assert(has_parent(s, p@[i + 1]) && parent_of(s, p@[i + 1]) == p@[i]);
                            assert(self.done@.contains(p@[i]));
                        } else {
                            assert(p@[i] == sol);
                            assert(g.spec_is_goal(sol));
                        }
                    }
                }
                Some(p)
            },
        }
    }
}

} // verus!
