//! Greedy best-first search: a priority frontier keyed purely by the
//! heuristic, goal test at discovery time, and no optimality guarantee on
//! path cost.

use vstd::prelude::*;
use vstd::set_lib::lemma_len_subset;
use vstd::seq_lib::seq_to_set_is_finite;
use crate::bookkeeping::VisitedSet;
use crate::bookkeeping::ParentMap;
use crate::bookkeeping::entry_rank;
use crate::bookkeeping::has_parent;
use crate::bookkeeping::parent_of;
use crate::bookkeeping::links_ok;
use crate::bookkeeping::lemma_links_ok_extend;
use crate::bookkeeping::lemma_last_entry_push;
use crate::bookkeeping::rebuild_path;
use crate::bookkeeping::pop_min;
use crate::bookkeeping::frontier_has;
use crate::bookkeeping::lemma_frontier_remove;
use crate::graph::Graph;
use crate::graph::HeuristicGraph;
use crate::graph::node_eq_facts;
use crate::graph::reachable;
use crate::graph::connects;
use crate::graph::lemma_connects_trivial;
use crate::graph::lemma_connects_extend;
use crate::graph::lemma_closed_set_bounds_reachable;
use crate::graphsearcher::GraphSearcher;
use crate::heapelement::HeapElement;

verus! {

/// A greedy best-first searcher. It always expands the frontier node whose
/// heuristic value is smallest, tests children for the goal as they are
/// discovered, and never consults accumulated path cost. Because only
/// children are goal-tested, a root that is itself the only reachable goal
/// is not detected.
pub struct BestFirstSearch<G: HeuristicGraph> {
    visited: VisitedSet<G::Node>,
    parents: ParentMap<G::Node>,
    max_frontier: usize,
    solution: Option<G::Node>,
    root_node: Option<G::Node>,
    run_root: Ghost<G::Node>,
    graph: Ghost<G>,
}

impl<G: HeuristicGraph> BestFirstSearch<G> {
    /// The peak frontier size of the most recent tracked run.
    pub closed spec fn spec_max_frontier(&self) -> usize {
        self.max_frontier
    }

    pub fn new() -> (r: Self)
        ensures
            r.wf(),
            r.spec_solution() is None,
            r.spec_visited() == Set::<G::Node>::empty(),
            r.spec_max_frontier() == 1,
    {
        let r = BestFirstSearch {
            visited: VisitedSet::new(),
            parents: ParentMap::new(),
            max_frontier: 1,
            solution: None,
            root_node: None,
            run_root: Ghost(arbitrary()),
            graph: Ghost(arbitrary()),
        };
        proof {
            assert(r.spec_visited() =~= Set::<G::Node>::empty());
        }
        r
    }

    /// The largest number of frontier entries the most recent tracked run
    /// held at once after expanding a node (at least 1, for the root that
    /// seeds the frontier).
    pub fn max_frontier(&self) -> (r: usize)
        ensures
            r == self.spec_max_frontier(),
    {
        self.max_frontier
    }
}

impl<G: HeuristicGraph> Default for BestFirstSearch<G> {
    fn default() -> (r: Self)
        ensures
            r.wf(),
            r.spec_solution() is None,
            r.spec_visited() == Set::<G::Node>::empty(),
    {
        Self::new()
    }
}

impl<G: HeuristicGraph> GraphSearcher<G> for BestFirstSearch<G> {
    closed spec fn wf(&self) -> bool {
        &&& self.visited.wf()
        &&& links_ok(self.parents@, self.graph@, self.run_root@, entry_rank(self.parents@))
        &&& (self.root_node matches Some(n) ==> n == self.run_root@)
        &&& (self.solution matches Some(sol) ==> {
            &&& self.root_node is Some
            &&& (sol == self.run_root@ || has_parent(self.parents@, sol))
        })
    }

    closed spec fn spec_graph(&self) -> G {
        self.graph@
    }

    closed spec fn spec_run_root(&self) -> G::Node {
        self.run_root@
    }

    closed spec fn spec_visited(&self) -> Set<G::Node> {
        self.visited.as_set()
    }

    closed spec fn spec_solution(&self) -> Option<G::Node> {
        self.solution
    }

    fn search_tracked(&mut self, graph: &G, root: G::Node) -> (r: Option<G::Node>)
        ensures
            r is None ==> forall|m: G::Node|
                reachable(*graph, root, m) ==> final(self).spec_visited().contains(m),
            final(self).spec_max_frontier() >= 1,
    {
        proof {
            G::node_eq_agrees();
            graph.children_in_nodes();
        }
        self.graph = Ghost(*graph);
        self.run_root = Ghost(root);
        self.root_node = Some(root);
        self.visited = VisitedSet::new();
        self.parents = ParentMap::new();
        self.solution = None;
        self.max_frontier = 1;
        let ghost univ = graph.spec_nodes().to_set().insert(root);
        proof {
            seq_to_set_is_finite::<G::Node>(graph.spec_nodes());
            lemma_connects_trivial(*graph, root);
        }
        let mut frontier: Vec<HeapElement<G::Node>> = Vec::new();
        self.visited.insert(root);
        let hr = graph.heuristic(root);
        frontier.push(HeapElement::new(root, hr));
        proof {
            self.visited.lemma_card();
            assert(frontier@[0].node == root);
        }
        while frontier.len() != 0
            invariant
                node_eq_facts::<G::Node>(),
                forall|n: G::Node, c: G::Node|
                    (#[trigger] graph.spec_children(n).contains(c)) ==> graph.spec_nodes().contains(
                        c,
                    ),
                univ == graph.spec_nodes().to_set().insert(root),
                univ.finite(),
                self.graph@ == *graph,
                self.run_root@ == root,
                self.root_node == Some(root),
                self.solution is None,
                self.visited.wf(),
                1 <= self.max_frontier,
                self.visited.as_set().contains(root),
                forall|i: int|
                    0 <= i < frontier@.len() ==> self.visited.as_set().contains(
                        (#[trigger] frontier@[i]).node,
                    ),
                forall|n: G::Node| #[trigger] self.visited.as_set().contains(n) ==> univ.contains(n),
                forall|n: G::Node|
                    #[trigger] self.visited.as_set().contains(n) ==> reachable(*graph, root, n),
                forall|n: G::Node|
                    #[trigger] self.visited.as_set().contains(n) && n != root
                        ==> !graph.spec_is_goal(n),
                forall|n: G::Node|
                    #[trigger] self.visited.as_set().contains(n) ==> (frontier_has(frontier@, n)
                        || (forall|c: G::Node|
                        (#[trigger] graph.spec_children(n).contains(c))
                            ==> self.visited.as_set().contains(c))),
                links_ok(self.parents@, *graph, root, entry_rank(self.parents@)),
                forall|n: G::Node|
                    #[trigger] self.visited.as_set().contains(n) && n != root ==> has_parent(
                        self.parents@,
                        n,
                    ),
                forall|x: G::Node|
                    #[trigger] has_parent(self.parents@, x) ==> self.visited.as_set().contains(x)
                        && self.visited.as_set().contains(parent_of(self.parents@, x)),
                self.visited@.len() <= univ.len(),
                self.visited.as_set().len() == self.visited@.len(),
            decreases univ.len() - self.visited@.len(), frontier@.len(),
        {
            let ghost pre_f = frontier@;
            let e = match pop_min(&mut frontier) {
                Some(e) => e,
                None => vstd::pervasive::unreached(),
            };
            let ghost rem_i = choose|i: int|
                0 <= i < pre_f.len() && pre_f[i] == e && frontier@ == pre_f.remove(i);
            let best = e.node;
            proof {
                pre_f.remove_ensures(rem_i);
                assert(self.visited.as_set().contains(best));
                assert forall|n: G::Node|
                    #[trigger] self.visited.as_set().contains(n) && n != best && frontier_has(
                    pre_f,
                    n,
                ) implies frontier_has(frontier@, n) by {
                    lemma_frontier_remove(pre_f, rem_i, n);
                }
            }
            let ch = graph.children(best);
            let ghost pre_vis_len = self.visited@.len();
            let ghost pre_q_len = frontier@.len();
            let mut k: usize = 0;
            while k < ch.len()
                invariant
                    node_eq_facts::<G::Node>(),
                    forall|n: G::Node, c: G::Node|
                        (#[trigger] graph.spec_children(n).contains(c))
                            ==> graph.spec_nodes().contains(c),
                    univ == graph.spec_nodes().to_set().insert(root),
                    univ.finite(),
                    ch@ == graph.spec_children(best),
                    0 <= k <= ch@.len(),
                    self.graph@ == *graph,
                    self.run_root@ == root,
                    self.root_node == Some(root),
                    self.solution is None,
                    self.visited.wf(),
                    1 <= self.max_frontier,
                    self.visited.as_set().contains(root),
                    self.visited.as_set().contains(best),
                    forall|i: int|
                        0 <= i < frontier@.len() ==> self.visited.as_set().contains(
                            (#[trigger] frontier@[i]).node,
                        ),
                    forall|n: G::Node|
                        #[trigger] self.visited.as_set().contains(n) ==> univ.contains(n),
                    forall|n: G::Node|
                        #[trigger] self.visited.as_set().contains(n) ==> reachable(*graph, root, n),
                    forall|n: G::Node|
                        #[trigger] self.visited.as_set().contains(n) && n != root
                            ==> !graph.spec_is_goal(n),
                    forall|n: G::Node|
                        #[trigger] self.visited.as_set().contains(n) && n != best ==> (frontier_has(
                            frontier@,
                            n,
                        ) || (forall|c: G::Node|
                            (#[trigger] graph.spec_children(n).contains(c))
                                ==> self.visited.as_set().contains(c))),
                    forall|j: int|
                        0 <= j < k ==> self.visited.as_set().contains(#[trigger] ch@[j]),
                    links_ok(self.parents@, *graph, root, entry_rank(self.parents@)),
                    forall|n: G::Node|
                        #[trigger] self.visited.as_set().contains(n) && n != root ==> has_parent(
                            self.parents@,
                            n,
                        ),
                    forall|x: G::Node|
                        #[trigger] has_parent(self.parents@, x) ==> self.visited.as_set().contains(
                            x,
                        ) && self.visited.as_set().contains(parent_of(self.parents@, x)),
                    pre_q_len <= frontier@.len(),
                    frontier@.len() - pre_q_len == self.visited@.len() - pre_vis_len,
                    pre_vis_len <= self.visited@.len(),
                    self.visited@.len() <= univ.len(),
                    self.visited.as_set().len() == self.visited@.len(),
                decreases ch@.len() - k,
            {
                let c = ch[k];
                proof {
                    assert(ch@[k as int] == c);
                    assert(graph.spec_children(best).contains(c));
                }
                if !self.visited.contains(c) {
                    let ghost pp = self.parents@;
                    let ghost qv = frontier@;
                    proof {
                        lemma_links_ok_extend(self.parents@, *graph, root, c, best);
                        let pr = choose|p: Seq<G::Node>| connects(*graph, p, root, best);
                        lemma_connects_extend(*graph, pr, root, best, c);
                    }
                    self.parents.record(c, best);
                    if graph.is_goal(c) {
                        self.solution = Some(c);
                        proof {
                            lemma_last_entry_push(pp, (c, best), c);
                            self.visited.lemma_card();
                        }
                        return Some(c);
                    }
                    self.visited.insert(c);
                    let hc = graph.heuristic(c);
                    frontier.push(HeapElement::new(c, hc));
                    proof {
                        assert(frontier@[frontier@.len() - 1].node == c);
                        assert forall|x: G::Node| #[trigger] has_parent(self.parents@, x) implies
                            self.visited.as_set().contains(x) && self.visited.as_set().contains(
                            parent_of(self.parents@, x),
                        ) by {
                            lemma_last_entry_push(pp, (c, best), x);
                        }
                        assert forall|n: G::Node|
                            #[trigger] self.visited.as_set().contains(n) && n != root
                            implies has_parent(self.parents@, n) by {
                            lemma_last_entry_push(pp, (c, best), n);
                        }
                        assert forall|n: G::Node|
                            #[trigger] self.visited.as_set().contains(n) && n != best
                            implies (frontier_has(frontier@, n) || (forall|cc: G::Node|
                            (#[trigger] graph.spec_children(n).contains(cc))
                                ==> self.visited.as_set().contains(cc))) by {
                            if n == c {
                                assert(frontier@[frontier@.len() - 1].node == c);
                                assert(frontier_has(frontier@, c));
                            } else if self.visited.as_set().contains(n) {
                                if frontier_has(qv, n) {
                                    let j = choose|j: int|
                                        0 <= j < qv.len() && qv[j].node == n;
                                    assert(frontier@[j] == qv[j]);
                                    assert(frontier_has(frontier@, n));
                                }
                            }
                        }
                        self.visited.lemma_card();
                        lemma_len_subset(self.visited.as_set(), univ);
                    }
                }
                k = k + 1;
            }
            let flen = frontier.len();
            if flen > self.max_frontier {
                self.max_frontier = flen;
            }
            proof {
                assert forall|n: G::Node|
                    #[trigger] self.visited.as_set().contains(n) implies (frontier_has(
                    frontier@,
                    n,
                ) || (forall|c: G::Node|
                    (#[trigger] graph.spec_children(n).contains(c))
                        ==> self.visited.as_set().contains(c))) by {
                    if n == best {
                        assert forall|c: G::Node|
                            (#[trigger] graph.spec_children(best).contains(c))
                            implies self.visited.as_set().contains(c) by {
                            let j = choose|j: int|
                                0 <= j < ch@.len() && ch@[j] == c;
                            assert(self.visited.as_set().contains(ch@[j]));
                        }
                    }
                }
            }
        }
        proof {
            self.visited.lemma_card();
            bestfirst_exhausted::<G>(*graph, self.visited.as_set(), frontier@, root);
        }
        None
    }

    fn search(graph: &G, root: G::Node) -> (r: Option<G::Node>) {
        proof {
            G::node_eq_agrees();
            graph.children_in_nodes();
        }
        let ghost univ = graph.spec_nodes().to_set().insert(root);
        proof {
            seq_to_set_is_finite::<G::Node>(graph.spec_nodes());
            lemma_connects_trivial(*graph, root);
        }
        let mut visited: VisitedSet<G::Node> = VisitedSet::new();
        let mut frontier: Vec<HeapElement<G::Node>> = Vec::new();
        visited.insert(root);
        frontier.push(HeapElement::new(root, 0));
        proof {
            visited.lemma_card();
            assert(frontier@[0].node == root);
        }
        while frontier.len() != 0
            invariant
                node_eq_facts::<G::Node>(),
                forall|n: G::Node, c: G::Node|
                    (#[trigger] graph.spec_children(n).contains(c)) ==> graph.spec_nodes().contains(
                        c,
                    ),
                univ == graph.spec_nodes().to_set().insert(root),
                univ.finite(),
                visited.wf(),
                visited.as_set().contains(root),
                forall|i: int|
                    0 <= i < frontier@.len() ==> visited.as_set().contains(
                        (#[trigger] frontier@[i]).node,
                    ),
                forall|n: G::Node| #[trigger] visited.as_set().contains(n) ==> univ.contains(n),
                forall|n: G::Node|
                    #[trigger] visited.as_set().contains(n) ==> reachable(*graph, root, n),
                forall|n: G::Node|
                    #[trigger] visited.as_set().contains(n) && n != root
                        ==> !graph.spec_is_goal(n),
                forall|n: G::Node|
                    #[trigger] visited.as_set().contains(n) ==> (frontier_has(frontier@, n) || (
                    forall|c: G::Node|
                        (#[trigger] graph.spec_children(n).contains(c)) ==> visited.as_set().contains(
                            c,
                        ))),
                visited@.len() <= univ.len(),
                visited.as_set().len() == visited@.len(),
            decreases univ.len() - visited@.len(), frontier@.len(),
        {
            let ghost pre_f = frontier@;
            let e = match pop_min(&mut frontier) {
                Some(e) => e,
                None => vstd::pervasive::unreached(),
            };
            let ghost rem_i = choose|i: int|
                0 <= i < pre_f.len() && pre_f[i] == e && frontier@ == pre_f.remove(i);
            let best = e.node;
            proof {
                pre_f.remove_ensures(rem_i);
                assert(visited.as_set().contains(best));
                assert forall|n: G::Node|
                    #[trigger] visited.as_set().contains(n) && n != best && frontier_has(
                    pre_f,
                    n,
                ) implies frontier_has(frontier@, n) by {
                    lemma_frontier_remove(pre_f, rem_i, n);
                }
            }
            let ch = graph.children(best);
            let ghost pre_vis_len = visited@.len();
            let ghost pre_q_len = frontier@.len();
            let mut k: usize = 0;
            while k < ch.len()
                invariant
                    node_eq_facts::<G::Node>(),
                    forall|n: G::Node, c: G::Node|
                        (#[trigger] graph.spec_children(n).contains(c))
                            ==> graph.spec_nodes().contains(c),
                    univ == graph.spec_nodes().to_set().insert(root),
                    univ.finite(),
                    ch@ == graph.spec_children(best),
                    0 <= k <= ch@.len(),
                    visited.wf(),
                    visited.as_set().contains(root),
                    visited.as_set().contains(best),
                    forall|i: int|
                        0 <= i < frontier@.len() ==> visited.as_set().contains(
                            (#[trigger] frontier@[i]).node,
                        ),
                    forall|n: G::Node| #[trigger] visited.as_set().contains(n) ==> univ.contains(n),
                    forall|n: G::Node|
                        #[trigger] visited.as_set().contains(n) ==> reachable(*graph, root, n),
                    forall|n: G::Node|
                        #[trigger] visited.as_set().contains(n) && n != root
                            ==> !graph.spec_is_goal(n),
                    forall|n: G::Node|
                        #[trigger] visited.as_set().contains(n) && n != best ==> (frontier_has(
                            frontier@,
                            n,
                        ) || (forall|c: G::Node|
                            (#[trigger] graph.spec_children(n).contains(c))
                                ==> visited.as_set().contains(c))),
                    forall|j: int| 0 <= j < k ==> visited.as_set().contains(#[trigger] ch@[j]),
                    pre_q_len <= frontier@.len(),
                    frontier@.len() - pre_q_len == visited@.len() - pre_vis_len,
                    pre_vis_len <= visited@.len(),
                    visited@.len() <= univ.len(),
                    visited.as_set().len() == visited@.len(),
                decreases ch@.len() - k,
            {
                let c = ch[k];
                proof {
                    assert(ch@[k as int] == c);
                    assert(graph.spec_children(best).contains(c));
                }
                if !visited.contains(c) {
                    let ghost qv = frontier@;
                    proof {
                        let pr = choose|p: Seq<G::Node>| connects(*graph, p, root, best);
                        lemma_connects_extend(*graph, pr, root, best, c);
                    }
                    if graph.is_goal(c) {
                        return Some(c);
                    }
                    visited.insert(c);
                    let hc = graph.heuristic(c);
                    frontier.push(HeapElement::new(c, hc));
                    proof {
                        assert(frontier@[frontier@.len() - 1].node == c);
                        assert forall|n: G::Node|
                            #[trigger] visited.as_set().contains(n) && n != best
                            implies (frontier_has(frontier@, n) || (forall|cc: G::Node|
                            (#[trigger] graph.spec_children(n).contains(cc))
                                ==> visited.as_set().contains(cc))) by {
                            if n == c {
                                assert(frontier_has(frontier@, c));
                            } else if visited.as_set().contains(n) {
                                if frontier_has(qv, n) {
                                    let j = choose|j: int|
                                        0 <= j < qv.len() && qv[j].node == n;
                                    assert(frontier@[j] == qv[j]);
                                    assert(frontier_has(frontier@, n));
                                }
                            }
                        }
                        visited.lemma_card();
                        lemma_len_subset(visited.as_set(), univ);
                    }
                }
                k = k + 1;
            }
            proof {
                assert forall|n: G::Node|
                    #[trigger] visited.as_set().contains(n) implies (frontier_has(frontier@, n)
                    || (forall|c: G::Node|
                    (#[trigger] graph.spec_children(n).contains(c)) ==> visited.as_set().contains(
                        c,
                    ))) by {
                    if n == best {
                        assert forall|c: G::Node|
                            (#[trigger] graph.spec_children(best).contains(c))
                            implies visited.as_set().contains(c) by {
                            let j = choose|j: int|
                                0 <= j < ch@.len() && ch@[j] == c;
                            assert(visited.as_set().contains(ch@[j]));
                        }
                    }
                }
            }
        }
        proof {
            bestfirst_exhausted::<G>(*graph, visited.as_set(), frontier@, root);
        }
        None
    }

    fn nodes_visited(&self) -> (r: usize) {
        self.visited.len()
    }

    fn is_visited(&self, node: G::Node) -> (r: bool) {
        proof {
            G::node_eq_agrees();
        }
        self.visited.contains(node)
    }

    fn path(&self) -> (r: Option<Vec<G::Node>>) {
        proof {
            G::node_eq_agrees();
        }
        match self.solution {
            None => None,
            Some(sol) => {
                let root = match self.root_node {
                    Some(n) => n,
                    None => vstd::pervasive::unreached(),
                };
                Some(
                    rebuild_path::<G>(
                        &self.parents,
                        root,
                        sol,
                        Ghost(self.graph@),
                        Ghost(entry_rank(self.parents@)),
                    ),
                )
            },
        }
    }
}

/// When the frontier runs dry, the visited set is closed under adjacency and
/// every visited node except possibly the root has failed the goal test at
/// its discovery, so no reachable goal other than the root exists.
proof fn bestfirst_exhausted<G: Graph>(
    g: G,
    vs: Set<G::Node>,
    f: Seq<HeapElement<G::Node>>,
    root: G::Node,
)
    requires
        f.len() == 0,
        vs.contains(root),
        forall|n: G::Node|
            #[trigger] vs.contains(n) ==> (frontier_has(f, n) || (forall|c: G::Node|
                (#[trigger] g.spec_children(n).contains(c)) ==> vs.contains(c))),
        forall|n: G::Node| #[trigger] vs.contains(n) && n != root ==> !g.spec_is_goal(n),
    ensures
        forall|m: G::Node|
            reachable(g, root, m) && #[trigger] g.spec_is_goal(m) ==> m == root,
        forall|m: G::Node| reachable(g, root, m) ==> vs.contains(m),
{
    assert forall|n: G::Node, c: G::Node|
        vs.contains(n) && #[trigger] g.spec_children(n).contains(c) implies vs.contains(c) by {
        assert(!frontier_has(f, n));
    }
    assert forall|m: G::Node| reachable(g, root, m) implies vs.contains(m) by {
        lemma_closed_set_bounds_reachable(g, vs, root, m);
    }
    assert forall|m: G::Node|
        reachable(g, root, m) && #[trigger] g.spec_is_goal(m) implies m == root by {
        assert(vs.contains(m));
    }
}

} // verus!
