//! Breadth-first search: a FIFO frontier, goal test on dequeue, and marking
//! at discovery time so no node is enqueued twice.

use vstd::prelude::*;
use vstd::set_lib::lemma_len_subset;
use vstd::seq_lib::seq_to_set_is_finite;
use crate::bookkeeping::VisitedSet;
use crate::bookkeeping::ParentMap;
use crate::bookkeeping::entry_rank;
use crate::bookkeeping::has_parent;
use crate::bookkeeping::parent_of;
use crate::bookkeeping::links_ok;
use crate::bookkeeping::lemma_links_ok_extend;
use crate::bookkeeping::lemma_last_entry_push;
use crate::bookkeeping::rebuild_path;
use crate::graph::Graph;
use crate::graph::node_eq_facts;
use crate::graph::reachable;
use crate::graph::connects;
use crate::graph::dist_at_most;
use crate::graph::is_walk;
use crate::graph::lemma_connects_trivial;
use crate::graph::lemma_connects_extend;
use crate::graph::lemma_closed_set_bounds_reachable;
use crate::graphsearcher::GraphSearcher;

verus! {

/// A breadth-first searcher. For unit edge costs the goal it returns is one
/// at minimum edge-count distance from the root.
pub struct BFS<G: Graph> {
    visited: VisitedSet<G::Node>,
    parents: ParentMap<G::Node>,
    max_frontier: usize,
    solution: Option<G::Node>,
    root_node: Option<G::Node>,
    run_root: Ghost<G::Node>,
    graph: Ghost<G>,
}

impl<G: Graph> BFS<G> {
    /// The peak frontier size of the most recent tracked run.
    pub closed spec fn spec_max_frontier(&self) -> usize {
        self.max_frontier
    }

    pub fn new() -> (r: Self)
        ensures
            r.wf(),
            r.spec_solution() is None,
            r.spec_visited() == Set::<G::Node>::empty(),
            r.spec_max_frontier() == 1,
    {
        let r = BFS {
            visited: VisitedSet::new(),
            parents: ParentMap::new(),
            max_frontier: 1,
            solution: None,
            root_node: None,
            run_root: Ghost(arbitrary()),
            graph: Ghost(arbitrary()),
        };
        proof {
            assert(r.spec_visited() =~= Set::<G::Node>::empty());
        }
        r
    }

    /// The largest number of frontier entries the most recent tracked run
    /// held at once after processing a dequeued node (at least 1, for the
    /// root that seeds the frontier).
    pub fn max_frontier(&self) -> (r: usize)
        ensures
            r == self.spec_max_frontier(),
    {
        self.max_frontier
    }
}

impl<G: Graph> Default for BFS<G> {
    fn default() -> (r: Self)
        ensures
            r.wf(),
            r.spec_solution() is None,
            r.spec_visited() == Set::<G::Node>::empty(),
    {
        Self::new()
    }
}

impl<G: Graph> GraphSearcher<G> for BFS<G> {
    closed spec fn wf(&self) -> bool {
        &&& self.visited.wf()
        &&& links_ok(self.parents@, self.graph@, self.run_root@, entry_rank(self.parents@))
        &&& (self.root_node matches Some(n) ==> n == self.run_root@)
        &&& (self.solution matches Some(sol) ==> {
            &&& self.root_node is Some
            &&& (sol == self.run_root@ || has_parent(self.parents@, sol))
        })
    }

    closed spec fn spec_graph(&self) -> G {
        self.graph@
    }

    closed spec fn spec_run_root(&self) -> G::Node {
        self.run_root@
    }

    closed spec fn spec_visited(&self) -> Set<G::Node> {
        self.visited.as_set()
    }

    closed spec fn spec_solution(&self) -> Option<G::Node> {
        self.solution
    }

    #[verifier::rlimit(100)]
    fn search_tracked(&mut self, graph: &G, root: G::Node) -> (r: Option<G::Node>)
        ensures
            r is None ==> forall|m: G::Node|
                reachable(*graph, root, m) ==> !graph.spec_is_goal(m),
            r is None ==> forall|m: G::Node|
                reachable(*graph, root, m) ==> final(self).spec_visited().contains(m),
            graph.spec_is_goal(root) ==> r == Some(root),
            r matches Some(n) ==> forall|m: G::Node, k: int|
                graph.spec_is_goal(m) && #[trigger] dist_at_most(*graph, root, m, k)
                    ==> dist_at_most(*graph, root, n, k),
            final(self).spec_max_frontier() >= 1,
    {
        proof {
            G::node_eq_agrees();
            graph.children_in_nodes();
        }
        self.graph = Ghost(*graph);
        self.run_root = Ghost(root);
        self.root_node = Some(root);
        self.visited = VisitedSet::new();
        self.parents = ParentMap::new();
        self.solution = None;
        self.max_frontier = 1;
        let ghost univ = graph.spec_nodes().to_set().insert(root);
        proof {
            seq_to_set_is_finite::<G::Node>(graph.spec_nodes());
            lemma_connects_trivial(*graph, root);
        }
        let ghost mut lvl: Map<G::Node, int> = Map::empty().insert(root, 0);
        let mut queue: Vec<G::Node> = Vec::new();
        self.visited.insert(root);
        queue.push(root);
        proof {
            self.visited.lemma_card();
            assert(queue@ =~= seq![root]);
            assert(dist_at_most(*graph, root, root, 0));
        }
        let mut head: usize = 0;
        while head < queue.len()
            invariant
                node_eq_facts::<G::Node>(),
                forall|n: G::Node, c: G::Node|
                    (#[trigger] graph.spec_children(n).contains(c)) ==> graph.spec_nodes().contains(
                        c,
                    ),
                univ == graph.spec_nodes().to_set().insert(root),
                univ.finite(),
                self.graph@ == *graph,
                self.run_root@ == root,
                self.root_node == Some(root),
                self.solution is None,
                self.visited.wf(),
                1 <= self.max_frontier,
                0 <= head <= queue@.len(),
                graph.spec_is_goal(root) ==> head == 0 && queue@ == seq![root],
                self.visited.as_set().contains(root),
                forall|j: int|
                    0 <= j < queue@.len() ==> self.visited.as_set().contains(#[trigger] queue@[j]),
                forall|n: G::Node| #[trigger] self.visited.as_set().contains(n) ==> univ.contains(n),
                forall|n: G::Node|
                    #[trigger] self.visited.as_set().contains(n) ==> reachable(*graph, root, n),
                forall|n: G::Node|
                    #[trigger] self.visited.as_set().contains(n) ==> queue@.contains(n),
                forall|j: int| 0 <= j < head ==> !graph.spec_is_goal(#[trigger] queue@[j]),
                forall|j: int, c: G::Node|
                    0 <= j < head && (#[trigger] graph.spec_children(queue@[j]).contains(c))
                        ==> self.visited.as_set().contains(c),
                links_ok(self.parents@, *graph, root, entry_rank(self.parents@)),
                forall|n: G::Node|
                    #[trigger] self.visited.as_set().contains(n) && n != root ==> has_parent(
                        self.parents@,
                        n,
                    ),
                forall|x: G::Node|
                    #[trigger] has_parent(self.parents@, x) ==> self.visited.as_set().contains(x)
                        && self.visited.as_set().contains(parent_of(self.parents@, x)),
                self.visited@.len() <= univ.len(),
                self.visited.as_set().len() == self.visited@.len(),
                lvl.dom().contains(root),
                lvl[root] == 0,
                forall|n: G::Node|
                    #[trigger] self.visited.as_set().contains(n) ==> lvl.dom().contains(n) && 0
                        <= lvl[n] && dist_at_most(*graph, root, n, lvl[n]),
                forall|i: int, j: int|
                    #![trigger queue@[i], queue@[j]]
                    0 <= i <= j < queue@.len() ==> lvl[queue@[i]] <= lvl[queue@[j]],
                head < queue@.len() ==> forall|i: int|
                    0 <= i < queue@.len() ==> lvl[#[trigger] queue@[i]] <= lvl[queue@[head as int]]
                        + 1,
                forall|j: int, c: G::Node|
                    0 <= j < head && (#[trigger] graph.spec_children(queue@[j]).contains(c))
                        ==> lvl[c] <= lvl[queue@[j]] + 1,
            decreases univ.len() - self.visited@.len(), queue@.len() - head,
        {
            let node = queue[head];
            if graph.is_goal(node) {
                self.solution = Some(node);
                proof {
                    assert(graph.spec_is_goal(root) ==> node == root);
                    self.visited.lemma_card();
                    bfs_found_min_distance(
                        *graph,
                        self.visited.as_set(),
                        lvl,
                        queue@,
                        head as int,
                        root,
                        node,
                    );
                }
                return Some(node);
            }
            let ch = graph.children(node);
            let ghost pre_vis_len = self.visited@.len();
            let ghost pre_q_len = queue@.len();
            let mut k: usize = 0;
            while k < ch.len()
                invariant
                    node_eq_facts::<G::Node>(),
                    forall|n: G::Node, c: G::Node|
                        (#[trigger] graph.spec_children(n).contains(c))
                            ==> graph.spec_nodes().contains(c),
                    univ == graph.spec_nodes().to_set().insert(root),
                    univ.finite(),
                    ch@ == graph.spec_children(node),
                    self.visited.as_set().contains(node),
                    head < queue@.len(),
                    queue@[head as int] == node,
                    0 <= k <= ch@.len(),
                    self.graph@ == *graph,
                    self.run_root@ == root,
                    self.root_node == Some(root),
                    self.solution is None,
                    self.visited.wf(),
                    1 <= self.max_frontier,
                    !graph.spec_is_goal(root),
                    self.visited.as_set().contains(root),
                    forall|j: int|
                        0 <= j < queue@.len() ==> self.visited.as_set().contains(
                            #[trigger] queue@[j],
                        ),
                    forall|n: G::Node|
                        #[trigger] self.visited.as_set().contains(n) ==> univ.contains(n),
                    forall|n: G::Node|
                        #[trigger] self.visited.as_set().contains(n) ==> reachable(*graph, root, n),
                    forall|n: G::Node|
                        #[trigger] self.visited.as_set().contains(n) ==> queue@.contains(n),
                    forall|j: int| 0 <= j < head ==> !graph.spec_is_goal(#[trigger] queue@[j]),
                    forall|j: int, c: G::Node|
                        0 <= j < head && (#[trigger] graph.spec_children(queue@[j]).contains(c))
                            ==> self.visited.as_set().contains(c),
                    forall|j: int|
                        0 <= j < k ==> self.visited.as_set().contains(#[trigger] ch@[j]),
                    links_ok(self.parents@, *graph, root, entry_rank(self.parents@)),
                    forall|n: G::Node|
                        #[trigger] self.visited.as_set().contains(n) && n != root ==> has_parent(
                            self.parents@,
                            n,
                        ),
                    forall|x: G::Node|
                        #[trigger] has_parent(self.parents@, x) ==> self.visited.as_set().contains(
                            x,
                        ) && self.visited.as_set().contains(parent_of(self.parents@, x)),
                    pre_q_len <= queue@.len(),
                    queue@.len() - pre_q_len == self.visited@.len() - pre_vis_len,
                    pre_vis_len <= self.visited@.len(),
                    self.visited@.len() <= univ.len(),
                    self.visited.as_set().len() == self.visited@.len(),
                    lvl.dom().contains(root),
                    lvl[root] == 0,
                    forall|n: G::Node|
                        #[trigger] self.visited.as_set().contains(n) ==> lvl.dom().contains(n)
                            && 0 <= lvl[n] && dist_at_most(*graph, root, n, lvl[n]),
                    forall|i: int, j: int|
                        #![trigger queue@[i], queue@[j]]
                        0 <= i <= j < queue@.len() ==> lvl[queue@[i]] <= lvl[queue@[j]],
                    forall|i: int|
                        0 <= i < queue@.len() ==> lvl[#[trigger] queue@[i]] <= lvl[node] + 1,
                    forall|j: int, c: G::Node|
                        0 <= j < head && (#[trigger] graph.spec_children(queue@[j]).contains(c))
                            ==> lvl[c] <= lvl[queue@[j]] + 1,
                    forall|j: int| 0 <= j < k ==> lvl[#[trigger] ch@[j]] <= lvl[node] + 1,
                decreases ch@.len() - k,
            {
                let c = ch[k];
                proof {
                    assert(ch@[k as int] == c);
                    assert(graph.spec_children(node).contains(c));
                }
                if !self.visited.contains(c) {
                    let ghost pp = self.parents@;
                    let ghost qv = queue@;
                    proof {
                        lemma_links_ok_extend(self.parents@, *graph, root, c, node);
                        let pr = choose|p: Seq<G::Node>| connects(*graph, p, root, node);
                        lemma_connects_extend(*graph, pr, root, node, c);
                        assert forall|i: int| 0 <= i < qv.len() implies qv[i] != c by {
                            assert(self.visited.as_set().contains(qv[i]));
                        }
                        let pl = choose|p: Seq<G::Node>|
                            connects(*graph, p, root, node) && p.len() <= lvl[node] + 1;
                        lemma_connects_extend(*graph, pl, root, node, c);
                        lvl = lvl.insert(c, lvl[node] + 1);
                        assert(connects(*graph, pl.push(c), root, c) && pl.push(c).len() <= lvl[c]
                            + 1);
                        assert(dist_at_most(*graph, root, c, lvl[c]));
                    }
                    self.parents.record(c, node);
                    self.visited.insert(c);
                    queue.push(c);
                    proof {
                        assert(queue@[queue@.len() - 1] == c);
                        assert forall|i: int, j: int|
                            #![trigger queue@[i], queue@[j]]
                            0 <= i <= j < queue@.len() implies lvl[queue@[i]] <= lvl[queue@[j]] by {
                            if j < qv.len() {
                                assert(queue@[i] == qv[i] && queue@[j] == qv[j]);
                            } else if i < qv.len() {
                                assert(queue@[i] == qv[i]);
                                assert(lvl[qv[i]] <= lvl[node] + 1);
                            }
                        }
                        assert forall|n: G::Node|
                            #[trigger] self.visited.as_set().contains(n) implies queue@.contains(
                            n,
                        ) by {
                            if n != c {
                                let j = choose|j: int| 0 <= j < qv.len() && qv[j] == n;
                                assert(queue@[j] == n);
                            }
                        }
                        assert forall|x: G::Node| #[trigger] has_parent(self.parents@, x) implies
                            self.visited.as_set().contains(x) && self.visited.as_set().contains(
                            parent_of(self.parents@, x),
                        ) by {
                            lemma_last_entry_push(pp, (c, node), x);
                        }
                        assert forall|n: G::Node|
                            #[trigger] self.visited.as_set().contains(n) && n != root
                            implies has_parent(self.parents@, n) by {
                            lemma_last_entry_push(pp, (c, node), n);
                        }
                        self.visited.lemma_card();
                        lemma_len_subset(self.visited.as_set(), univ);
                    }
                }
                proof {
                    assert(self.visited.as_set().contains(c));
                    assert(queue@.contains(c));
                    let ci = choose|ci: int| 0 <= ci < queue@.len() && queue@[ci] == c;
                    assert(lvl[queue@[ci]] <= lvl[node] + 1);
                }
                k = k + 1;
            }
            proof {
                assert forall|j: int, c2: G::Node|
                    0 <= j < head + 1 && (#[trigger] graph.spec_children(queue@[j]).contains(c2))
                    implies lvl[c2] <= lvl[queue@[j]] + 1 by {
                    if j == head {
                        let jj = choose|jj: int| 0 <= jj < ch@.len() && ch@[jj] == c2;
                        assert(lvl[ch@[jj]] <= lvl[node] + 1);
                    }
                }
                if head + 1 < queue@.len() {
                    assert forall|i: int| 0 <= i < queue@.len() implies lvl[#[trigger] queue@[i]]
                        <= lvl[queue@[head + 1]] + 1 by {
                        assert(lvl[queue@[i]] <= lvl[node] + 1);
                        assert(lvl[queue@[head as int]] <= lvl[queue@[head + 1]]);
                    }
                }
            }
            head = head + 1;
            let flen = queue.len() - head;
            if flen > self.max_frontier {
                self.max_frontier = flen;
            }
        }
        proof {
            self.visited.lemma_card();
            bfs_exhausted_no_goal::<G>(*graph, self.visited.as_set(), queue@, root, head as int);
            lemma_connects_trivial(*graph, root);
            assert(!graph.spec_is_goal(root));
        }
        None
    }

    #[verifier::rlimit(100)]
    fn search(graph: &G, root: G::Node) -> (r: Option<G::Node>)
        ensures
            r is None ==> forall|m: G::Node|
                reachable(*graph, root, m) ==> !graph.spec_is_goal(m),
            graph.spec_is_goal(root) ==> r == Some(root),
            r matches Some(n) ==> forall|m: G::Node, k: int|
                graph.spec_is_goal(m) && #[trigger] dist_at_most(*graph, root, m, k)
                    ==> dist_at_most(*graph, root, n, k),
    {
        proof {
            G::node_eq_agrees();
            graph.children_in_nodes();
        }
        let ghost univ = graph.spec_nodes().to_set().insert(root);
        proof {
            seq_to_set_is_finite::<G::Node>(graph.spec_nodes());
            lemma_connects_trivial(*graph, root);
        }
        let ghost mut lvl: Map<G::Node, int> = Map::empty().insert(root, 0);
        let mut visited: VisitedSet<G::Node> = VisitedSet::new();
        let mut queue: Vec<G::Node> = Vec::new();
        visited.insert(root);
        queue.push(root);
        proof {
            visited.lemma_card();
            assert(queue@ =~= seq![root]);
            assert(dist_at_most(*graph, root, root, 0));
        }
        let mut head: usize = 0;
        while head < queue.len()
            invariant
                node_eq_facts::<G::Node>(),
                forall|n: G::Node, c: G::Node|
                    (#[trigger] graph.spec_children(n).contains(c)) ==> graph.spec_nodes().contains(
                        c,
                    ),
                univ == graph.spec_nodes().to_set().insert(root),
                univ.finite(),
                visited.wf(),
                0 <= head <= queue@.len(),
                graph.spec_is_goal(root) ==> head == 0 && queue@ == seq![root],
                visited.as_set().contains(root),
                forall|j: int|
                    0 <= j < queue@.len() ==> visited.as_set().contains(#[trigger] queue@[j]),
                forall|n: G::Node| #[trigger] visited.as_set().contains(n) ==> univ.contains(n),
                forall|n: G::Node|
                    #[trigger] visited.as_set().contains(n) ==> reachable(*graph, root, n),
                forall|n: G::Node| #[trigger] visited.as_set().contains(n) ==> queue@.contains(n),
                forall|j: int| 0 <= j < head ==> !graph.spec_is_goal(#[trigger] queue@[j]),
                forall|j: int, c: G::Node|
                    0 <= j < head && (#[trigger] graph.spec_children(queue@[j]).contains(c))
                        ==> visited.as_set().contains(c),
                visited@.len() <= univ.len(),
                visited.as_set().len() == visited@.len(),
                lvl.dom().contains(root),
                lvl[root] == 0,
                forall|n: G::Node|
                    #[trigger] visited.as_set().contains(n) ==> lvl.dom().contains(n) && 0
                        <= lvl[n] && dist_at_most(*graph, root, n, lvl[n]),
                forall|i: int, j: int|
                    #![trigger queue@[i], queue@[j]]
                    0 <= i <= j < queue@.len() ==> lvl[queue@[i]] <= lvl[queue@[j]],
                head < queue@.len() ==> forall|i: int|
                    0 <= i < queue@.len() ==> lvl[#[trigger] queue@[i]] <= lvl[queue@[head as int]]
                        + 1,
                forall|j: int, c: G::Node|
                    0 <= j < head && (#[trigger] graph.spec_children(queue@[j]).contains(c))
                        ==> lvl[c] <= lvl[queue@[j]] + 1,
            decreases univ.len() - visited@.len(), queue@.len() - head,
        {
            let node = queue[head];
            if graph.is_goal(node) {
                proof {
                    assert(graph.spec_is_goal(root) ==> node == root);
                    bfs_found_min_distance(
                        *graph,
                        visited.as_set(),
                        lvl,
                        queue@,
                        head as int,
                        root,
                        node,
                    );
                }
                return Some(node);
            }
            let ch = graph.children(node);
            let ghost pre_vis_len = visited@.len();
            let ghost pre_q_len = queue@.len();
            let mut k: usize = 0;
            while k < ch.len()
                invariant
                    node_eq_facts::<G::Node>(),
                    forall|n: G::Node, c: G::Node|
                        (#[trigger] graph.spec_children(n).contains(c))
                            ==> graph.spec_nodes().contains(c),
                    univ == graph.spec_nodes().to_set().insert(root),
                    univ.finite(),
                    ch@ == graph.spec_children(node),
                    visited.as_set().contains(node),
                    head < queue@.len(),
                    queue@[head as int] == node,
                    0 <= k <= ch@.len(),
                    visited.wf(),
                    !graph.spec_is_goal(root),
                    visited.as_set().contains(root),
                    forall|j: int|
                        0 <= j < queue@.len() ==> visited.as_set().contains(#[trigger] queue@[j]),
                    forall|n: G::Node| #[trigger] visited.as_set().contains(n) ==> univ.contains(n),
                    forall|n: G::Node|
                        #[trigger] visited.as_set().contains(n) ==> reachable(*graph, root, n),
                    forall|n: G::Node|
                        #[trigger] visited.as_set().contains(n) ==> queue@.contains(n),
                    forall|j: int| 0 <= j < head ==> !graph.spec_is_goal(#[trigger] queue@[j]),
                    forall|j: int, c: G::Node|
                        0 <= j < head && (#[trigger] graph.spec_children(queue@[j]).contains(c))
                            ==> visited.as_set().contains(c),
                    forall|j: int| 0 <= j < k ==> visited.as_set().contains(#[trigger] ch@[j]),
                    pre_q_len <= queue@.len(),
                    queue@.len() - pre_q_len == visited@.len() - pre_vis_len,
                    pre_vis_len <= visited@.len(),
                    visited@.len() <= univ.len(),
                    visited.as_set().len() == visited@.len(),
                    lvl.dom().contains(root),
                    lvl[root] == 0,
                    forall|n: G::Node|
                        #[trigger] visited.as_set().contains(n) ==> lvl.dom().contains(n) && 0
                            <= lvl[n] && dist_at_most(*graph, root, n, lvl[n]),
                    forall|i: int, j: int|
                        #![trigger queue@[i], queue@[j]]
                        0 <= i <= j < queue@.len() ==> lvl[queue@[i]] <= lvl[queue@[j]],
                    forall|i: int|
                        0 <= i < queue@.len() ==> lvl[#[trigger] queue@[i]] <= lvl[node] + 1,
                    forall|j: int, c: G::Node|
                        0 <= j < head && (#[trigger] graph.spec_children(queue@[j]).contains(c))
                            ==> lvl[c] <= lvl[queue@[j]] + 1,
                    forall|j: int| 0 <= j < k ==> lvl[#[trigger] ch@[j]] <= lvl[node] + 1,
                decreases ch@.len() - k,
            {
                let c = ch[k];
                proof {
                    assert(ch@[k as int] == c);
                    assert(graph.spec_children(node).contains(c));
                }
                if !visited.contains(c) {
                    let ghost qv = queue@;
                    proof {
                        let pr = choose|p: Seq<G::Node>| connects(*graph, p, root, node);
                        lemma_connects_extend(*graph, pr, root, node, c);
                        assert forall|i: int| 0 <= i < qv.len() implies qv[i] != c by {
                            assert(visited.as_set().contains(qv[i]));
                        }
                        let pl = choose|p: Seq<G::Node>|
                            connects(*graph, p, root, node) && p.len() <= lvl[node] + 1;
                        lemma_connects_extend(*graph, pl, root, node, c);
                        lvl = lvl.insert(c, lvl[node] + 1);
                        assert(connects(*graph, pl.push(c), root, c) && pl.push(c).len() <= lvl[c]
                            + 1);
                        assert(dist_at_most(*graph, root, c, lvl[c]));
                    }
                    visited.insert(c);
                    queue.push(c);
                    proof {
                        assert(queue@[queue@.len() - 1] == c);
                        assert forall|i: int, j: int|
                            #![trigger queue@[i], queue@[j]]
                            0 <= i <= j < queue@.len() implies lvl[queue@[i]] <= lvl[queue@[j]] by {
                            if j < qv.len() {
                                assert(queue@[i] == qv[i] && queue@[j] == qv[j]);
                            } else if i < qv.len() {
                                assert(queue@[i] == qv[i]);
                                assert(lvl[qv[i]] <= lvl[node] + 1);
                            }
                        }
                        assert forall|n: G::Node|
                            #[trigger] visited.as_set().contains(n) implies queue@.contains(n) by {
                            if n != c {
                                let j = choose|j: int| 0 <= j < qv.len() && qv[j] == n;
                                assert(queue@[j] == n);
                            }
                        }
                        visited.lemma_card();
                        lemma_len_subset(visited.as_set(), univ);
                    }
                }
                proof {
                    assert(visited.as_set().contains(c));
                    assert(queue@.contains(c));
                    let ci = choose|ci: int| 0 <= ci < queue@.len() && queue@[ci] == c;
                    assert(lvl[queue@[ci]] <= lvl[node] + 1);
                }
                k = k + 1;
            }
            proof {
                assert forall|j: int, c2: G::Node|
                    0 <= j < head + 1 && (#[trigger] graph.spec_children(queue@[j]).contains(c2))
                    implies lvl[c2] <= lvl[queue@[j]] + 1 by {
                    if j == head {
                        let jj = choose|jj: int| 0 <= jj < ch@.len() && ch@[jj] == c2;
                        assert(lvl[ch@[jj]] <= lvl[node] + 1);
                    }
                }
                if head + 1 < queue@.len() {
                    assert forall|i: int| 0 <= i < queue@.len() implies lvl[#[trigger] queue@[i]]
                        <= lvl[queue@[head + 1]] + 1 by {
                        assert(lvl[queue@[i]] <= lvl[node] + 1);
                        assert(lvl[queue@[head as int]] <= lvl[queue@[head + 1]]);
                    }
                }
            }
            head = head + 1;
        }
        proof {
            bfs_exhausted_no_goal::<G>(*graph, visited.as_set(), queue@, root, head as int);
            lemma_connects_trivial(*graph, root);
            assert(!graph.spec_is_goal(root));
        }
        None
    }

    fn nodes_visited(&self) -> (r: usize) {
        self.visited.len()
    }

    fn is_visited(&self, node: G::Node) -> (r: bool) {
        proof {
            G::node_eq_agrees();
        }
        self.visited.contains(node)
    }

    fn path(&self) -> (r: Option<Vec<G::Node>>) {
        proof {
            G::node_eq_agrees();
        }
        match self.solution {
            None => None,
            Some(sol) => {
                let root = match self.root_node {
                    Some(n) => n,
                    None => vstd::pervasive::unreached(),
                };
                Some(
                    rebuild_path::<G>(
                        &self.parents,
                        root,
                        sol,
                        Ghost(self.graph@),
                        Ghost(entry_rank(self.parents@)),
                    ),
                )
            },
        }
    }
}

/// When the frontier runs dry every visited node has been expanded without
/// finding a goal, and the visited set is closed under adjacency, so no
/// reachable node at all is a goal.
proof fn bfs_exhausted_no_goal<G: Graph>(
    g: G,
    vs: Set<G::Node>,
    queue: Seq<G::Node>,
    root: G::Node,
    head: int,
)
    requires
        head == queue.len(),
        vs.contains(root),
        forall|j: int| 0 <= j < queue.len() ==> vs.contains(#[trigger] queue[j]),
        forall|n: G::Node| #[trigger] vs.contains(n) ==> queue.contains(n),
        forall|j: int| 0 <= j < head ==> !g.spec_is_goal(#[trigger] queue[j]),
        forall|j: int, c: G::Node|
            0 <= j < head && (#[trigger] g.spec_children(queue[j]).contains(c)) ==> vs.contains(c),
    ensures
        forall|m: G::Node| reachable(g, root, m) ==> !g.spec_is_goal(m),
        forall|m: G::Node| reachable(g, root, m) ==> vs.contains(m),
{
    assert forall|m: G::Node| reachable(g, root, m) implies !g.spec_is_goal(m) && vs.contains(
        m,
    ) by {
        assert forall|n: G::Node, c: G::Node|
            vs.contains(n) && #[trigger] g.spec_children(n).contains(c) implies vs.contains(
            c,
        ) by {
            assert(queue.contains(n));
            let j = choose|j: int| 0 <= j < queue.len() && queue[j] == n;
            assert(g.spec_children(queue[j]).contains(c));
        }
        lemma_closed_set_bounds_reachable(g, vs, root, m);
        let j = choose|j: int| 0 <= j < queue.len() && queue[j] == m;
        assert(!g.spec_is_goal(queue[j]));
    }
}



/// At the moment a goal is dequeued, breadth-first layering makes it a goal
/// at minimum edge-count distance: anything strictly closer was already
/// dequeued, goal-tested and found wanting.
proof fn bfs_found_min_distance<G: Graph>(
    g: G,
    vs: Set<G::Node>,
    lvl: Map<G::Node, int>,
    q: Seq<G::Node>,
    head: int,
    root: G::Node,
    node: G::Node,
)
    requires
        vs.contains(root),
        lvl.dom().contains(root),
        lvl[root] == 0,
        0 <= head < q.len(),
        q[head] == node,
        vs.contains(node),
        forall|n: G::Node| #[trigger] vs.contains(n) ==> q.contains(n),
        forall|j: int| 0 <= j < head ==> !g.spec_is_goal(#[trigger] q[j]),
        forall|j: int, c: G::Node|
            0 <= j < head && (#[trigger] g.spec_children(q[j]).contains(c)) ==> vs.contains(c),
        forall|j: int, c: G::Node|
            0 <= j < head && (#[trigger] g.spec_children(q[j]).contains(c)) ==> lvl[c] <= lvl[
                q[j]] + 1,
        forall|i: int, j: int|
            #![trigger q[i], q[j]]
            0 <= i <= j < q.len() ==> lvl[q[i]] <= lvl[q[j]],
        forall|n: G::Node|
            #[trigger] vs.contains(n) ==> lvl.dom().contains(n) && 0 <= lvl[n] && dist_at_most(
                g,
                root,
                n,
                lvl[n],
            ),
    ensures
        forall|m: G::Node, k: int|
            g.spec_is_goal(m) && #[trigger] dist_at_most(g, root, m, k) ==> dist_at_most(
                g,
                root,
                node,
                k,
            ),
{
    let lcap = lvl[q[head]];
    assert forall|m: G::Node|
        #[trigger] vs.contains(m) && lvl[m] < lcap implies (!g.spec_is_goal(m) && forall|
        c: G::Node,
    |
        (#[trigger] g.spec_children(m).contains(c)) ==> vs.contains(c) && lvl[c] <= lvl[m]
            + 1) by {
        assert(q.contains(m));
        let i = choose|i: int| 0 <= i < q.len() && q[i] == m;
        if i >= head {
            assert(lvl[q[head]] <= lvl[q[i]]);
        }
        assert(i < head);
        assert(!g.spec_is_goal(q[i]));
        assert forall|c: G::Node|
            (#[trigger] g.spec_children(m).contains(c)) implies vs.contains(c) && lvl[c] <= lvl[m]
            + 1 by {
            assert(g.spec_children(q[i]).contains(c));
        }
    }
    assert forall|m: G::Node, k: int|
        g.spec_is_goal(m) && #[trigger] dist_at_most(g, root, m, k) implies dist_at_most(
        g,
        root,
        node,
        k,
    ) by {
        if k < lcap {
            let p = choose|p: Seq<G::Node>| connects(g, p, root, m) && p.len() <= k + 1;
            lemma_bfs_close_nodes_found(g, vs, lvl, lcap, root, p);
            assert(vs.contains(m) && lvl[m] <= k);
            assert(false);
        } else {
            assert(vs.contains(node));
            assert(dist_at_most(g, root, node, lvl[node]));
            let p = choose|p: Seq<G::Node>| connects(g, p, root, node) && p.len() <= lvl[node] + 1;
            assert(connects(g, p, root, node) && p.len() <= k + 1);
        }
    }
}

/// Breadth-first discovery is layer-complete: once the search is processing
/// level `lcap`, every node on a walk from the root with fewer than `lcap`
/// nodes has been discovered, at a level no deeper than its position.
proof fn lemma_bfs_close_nodes_found<G: Graph>(
    g: G,
    vs: Set<G::Node>,
    lvl: Map<G::Node, int>,
    lcap: int,
    root: G::Node,
    q: Seq<G::Node>,
)
    requires
        vs.contains(root),
        lvl.dom().contains(root),
        lvl[root] == 0,
        forall|m: G::Node|
            #[trigger] vs.contains(m) && lvl[m] < lcap ==> (forall|c: G::Node|
                (#[trigger] g.spec_children(m).contains(c)) ==> vs.contains(c) && lvl[c] <= lvl[m]
                    + 1),
        is_walk(g, q),
        q[0] == root,
        q.len() <= lcap,
    ensures
        vs.contains(q[q.len() - 1]),
        lvl[q[q.len() - 1]] <= q.len() - 1,
    decreases q.len(),
{
    if q.len() > 1 {
        let t = q.drop_last();
        assert forall|i: int| 0 <= i < t.len() - 1 implies (#[trigger] g.spec_children(
            t[i],
        )).contains(t[i + 1]) by {
            assert(t[i] == q[i] && t[i + 1] == q[i + 1]);
            assert(g.spec_children(q[i]).contains(q[i + 1]));
        }
        assert(t[0] == root);
        lemma_bfs_close_nodes_found(g, vs, lvl, lcap, root, t);
        assert(t[t.len() - 1] == q[q.len() - 2]);
        assert(g.spec_children(q[q.len() - 2]).contains(q[q.len() - 1]));
    }
}

} // verus!
