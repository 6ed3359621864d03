//! Depth-first search, recursive, with an explicit path stack; and
//! iterative-deepening depth-first search, which repeats depth-limited
//! searches with growing limits.

use vstd::prelude::*;
use vstd::set_lib::lemma_len_subset;
use vstd::seq_lib::seq_to_set_is_finite;
use crate::bookkeeping::VisitedSet;
use crate::bookkeeping::copy_nodes;
use crate::graph::Graph;
use crate::graph::node_eq_facts;
use crate::graph::reachable;
use crate::graph::connects;
use crate::graph::dist_at_most;
use crate::graph::lemma_connects_trivial;
use crate::graph::lemma_connects_extend;
use crate::graph::lemma_connects_prepend;
use crate::graph::lemma_closed_set_bounds_reachable;
use crate::graphsearcher::GraphSearcher;

verus! {

/// A depth-first searcher: goal test on entry, recursion into unvisited
/// children in adjacency order, and an explicit path stack that always
/// mirrors the current descent, so the solution path needs no parent map.
pub struct DFS<G: Graph> {
    visited: VisitedSet<G::Node>,
    path: Vec<G::Node>,
    solution: Option<G::Node>,
    root_node: Option<G::Node>,
    run_root: Ghost<G::Node>,
    graph: Ghost<G>,
}

impl<G: Graph> DFS<G> {
    pub fn new() -> (r: Self)
        ensures
            r.wf(),
            r.spec_solution() is None,
            r.spec_visited() == Set::<G::Node>::empty(),
    {
        let r = DFS {
            visited: VisitedSet::new(),
            path: Vec::new(),
            solution: None,
            root_node: None,
            run_root: Ghost(arbitrary()),
            graph: Ghost(arbitrary()),
        };
        proof {
            assert(r.spec_visited() =~= Set::<G::Node>::empty());
        }
        r
    }

    /// The recursive descent: `node` is already marked visited; explore it,
    /// returning the first goal found in its subtree.
    fn dfs_rec(
        &mut self,
        graph: &G,
        node: G::Node,
        Ghost(root): Ghost<G::Node>,
        Ghost(univ): Ghost<Set<G::Node>>,
    ) -> (r: Option<G::Node>)
        requires
            node_eq_facts::<G::Node>(),
            forall|n: G::Node, c: G::Node|
                (#[trigger] graph.spec_children(n).contains(c)) ==> graph.spec_nodes().contains(c),
            univ == graph.spec_nodes().to_set().insert(root),
            univ.finite(),
            old(self).graph@ == *graph,
            old(self).run_root@ == root,
            old(self).root_node == Some(root),
            old(self).solution is None,
            old(self).visited.wf(),
            old(self).visited.as_set().contains(node),
            reachable(*graph, root, node),
            forall|n: G::Node|
                #[trigger] old(self).visited.as_set().contains(n) ==> univ.contains(n),
            forall|n: G::Node|
                #[trigger] old(self).visited.as_set().contains(n) ==> reachable(*graph, root, n),
            old(self).visited@.len() <= univ.len(),
            old(self).visited.as_set().len() == old(self).visited@.len(),
            forall|i: int|
                0 <= i < old(self).path@.len() - 1 ==> (#[trigger] graph.spec_children(
                    old(self).path@[i],
                )).contains(old(self).path@[i + 1]),
            old(self).path@.len() > 0 ==> old(self).path@[0] == root && graph.spec_children(
                old(self).path@[old(self).path@.len() - 1],
            ).contains(node),
            old(self).path@.len() == 0 ==> node == root,
            old(self).path@.no_duplicates(),
            !old(self).path@.contains(node),
            forall|i: int|
                0 <= i < old(self).path@.len() ==> old(self).visited.as_set().contains(
                    #[trigger] old(self).path@[i],
                ),
        ensures
            final(self).graph@ == *graph,
            final(self).run_root@ == root,
            final(self).root_node == Some(root),
            final(self).solution is None,
            final(self).visited.wf(),
            forall|n: G::Node|
                #[trigger] old(self).visited.as_set().contains(n) ==> final(self).visited.as_set().contains(n),
            forall|n: G::Node|
                #[trigger] final(self).visited.as_set().contains(n) ==> univ.contains(n),
            forall|n: G::Node|
                #[trigger] final(self).visited.as_set().contains(n) ==> reachable(*graph, root, n),
            final(self).visited@.len() <= univ.len(),
            final(self).visited.as_set().len() == final(self).visited@.len(),
            old(self).visited@.len() <= final(self).visited@.len(),
            graph.spec_is_goal(node) ==> r == Some(node),
            r matches Some(m) ==> {
                &&& graph.spec_is_goal(m)
                &&& reachable(*graph, node, m)
                &&& final(self).path@.len() > old(self).path@.len()
                &&& final(self).path@.subrange(0, old(self).path@.len() as int) == old(self).path@
                &&& connects(
                    *graph,
                    final(self).path@.subrange(
                        old(self).path@.len() as int,
                        final(self).path@.len() as int,
                    ),
                    node,
                    m,
                )
                &&& final(self).path@.no_duplicates()
                &&& forall|i: int|
                    0 <= i < final(self).path@.len() ==> final(self).visited.as_set().contains(
                        #[trigger] final(self).path@[i],
                    )
            },
            r is None ==> {
                &&& final(self).path@ == old(self).path@
                &&& !graph.spec_is_goal(node)
                &&& forall|c: G::Node|
                    (#[trigger] graph.spec_children(node).contains(c)) ==> final(self).visited.as_set().contains(c)
                &&& forall|m: G::Node|
                    #[trigger] final(self).visited.as_set().contains(m) && !old(self).visited.as_set().contains(m) ==> !graph.spec_is_goal(m) && (forall|
                        c: G::Node,
                    |
                        (#[trigger] graph.spec_children(m).contains(c)) ==> final(self).visited.as_set().contains(c))
            },
        decreases univ.len() - self.visited@.len(),
    {
        let ghost entry = *self;
        self.path.push(node);
        proof {
            assert forall|i: int, j: int|
                0 <= i < j < self.path@.len() implies self.path@[i] != self.path@[j] by {
                if j < entry.path@.len() {
                    assert(entry.path@[i] != entry.path@[j]);
                } else {
                    assert(self.path@[j] == node);
                    assert(entry.path@[i] == self.path@[i]);
                    assert(entry.path@.contains(entry.path@[i]));
                }
            }
            assert(self.path@.no_duplicates());
        }
        if graph.is_goal(node) {
            proof {
                lemma_connects_trivial(*graph, node);
                assert(self.path@.subrange(0, entry.path@.len() as int) =~= entry.path@);
                assert(self.path@.subrange(
                    entry.path@.len() as int,
                    self.path@.len() as int,
                ) =~= seq![node]);
            }
            return Some(node);
        }
        let ch = graph.children(node);
        let mut k: usize = 0;
        while k < ch.len()
            invariant
                node_eq_facts::<G::Node>(),
                forall|n: G::Node, c: G::Node|
                    (#[trigger] graph.spec_children(n).contains(c)) ==> graph.spec_nodes().contains(
                        c,
                    ),
                univ == graph.spec_nodes().to_set().insert(root),
                univ.finite(),
                entry == *old(self),
                ch@ == graph.spec_children(node),
                0 <= k <= ch@.len(),
                !graph.spec_is_goal(node),
                self.graph@ == *graph,
                self.run_root@ == root,
                self.root_node == Some(root),
                self.solution is None,
                self.visited.wf(),
                self.visited.as_set().contains(node),
                reachable(*graph, root, node),
                entry.visited.as_set().contains(node),
                self.path@ == entry.path@.push(node),
                self.path@.no_duplicates(),
                forall|i: int|
                    0 <= i < entry.path@.len() ==> entry.visited.as_set().contains(
                        #[trigger] entry.path@[i],
                    ),
                forall|i: int|
                    0 <= i < self.path@.len() ==> self.visited.as_set().contains(
                        #[trigger] self.path@[i],
                    ),
                forall|n: G::Node|
                    #[trigger] entry.visited.as_set().contains(n) ==> self.visited.as_set().contains(
                        n,
                    ),
                forall|n: G::Node|
                    #[trigger] self.visited.as_set().contains(n) ==> univ.contains(n),
                forall|n: G::Node|
                    #[trigger] self.visited.as_set().contains(n) ==> reachable(*graph, root, n),
                self.visited@.len() <= univ.len(),
                self.visited.as_set().len() == self.visited@.len(),
                entry.visited@.len() <= self.visited@.len(),
                forall|i: int|
                    0 <= i < entry.path@.len() - 1 ==> (#[trigger] graph.spec_children(
                        entry.path@[i],
                    )).contains(entry.path@[i + 1]),
                entry.path@.len() > 0 ==> entry.path@[0] == root && graph.spec_children(
                    entry.path@[entry.path@.len() - 1],
                ).contains(node),
                entry.path@.len() == 0 ==> node == root,
                forall|j: int| 0 <= j < k ==> self.visited.as_set().contains(#[trigger] ch@[j]),
                forall|m: G::Node|
                    #[trigger] self.visited.as_set().contains(m) && !entry.visited.as_set().contains(
                        m,
                    ) ==> !graph.spec_is_goal(m) && (forall|c: G::Node|
                        (#[trigger] graph.spec_children(m).contains(c))
                            ==> self.visited.as_set().contains(c)),
            decreases ch@.len() - k,
        {
            let c = ch[k];
            proof {
                assert(ch@[k as int] == c);
                assert(graph.spec_children(node).contains(c));
            }
            if !self.visited.contains(c) {
                let ghost at_iter = self.visited.as_set();
                proof {
                    let pr = choose|p: Seq<G::Node>| connects(*graph, p, root, node);
                    lemma_connects_extend(*graph, pr, root, node, c);
                }
                self.visited.insert(c);
                proof {
                    self.visited.lemma_card();
                    lemma_len_subset(self.visited.as_set(), univ);
                    assert forall|i: int| 0 <= i < self.path@.len() - 1 implies (
                    #[trigger] graph.spec_children(self.path@[i])).contains(
                        self.path@[i + 1],
                    ) by {
                        if i < entry.path@.len() - 1 {
                            assert(self.path@[i] == entry.path@[i]);
                            assert(self.path@[i + 1] == entry.path@[i + 1]);
                            assert(graph.spec_children(entry.path@[i]).contains(
                                entry.path@[i + 1],
                            ));
                        } else {
                            assert(self.path@[i + 1] == node);
                        }
                    }
                    assert(self.path@[self.path@.len() - 1] == node);
                    if entry.path@.len() > 0 {
                        assert(self.path@[0] == entry.path@[0]);
                    }
                    if self.path@.contains(c) {
                        let ci = choose|ci: int| 0 <= ci < self.path@.len() && self.path@[ci] == c;
                        assert(at_iter.contains(self.path@[ci]));
                        assert(false);
                    }
                }
                let ghost before_child = *self;
                let r = self.dfs_rec(graph, c, Ghost(root), Ghost(univ));
                proof {
                    assert forall|n: G::Node|
                        #[trigger] entry.visited.as_set().contains(n)
                        implies self.visited.as_set().contains(n) by {
                        assert(before_child.visited.as_set().contains(n));
                    }
                    assert forall|j: int| 0 <= j < k implies self.visited.as_set().contains(
                        #[trigger] ch@[j],
                    ) by {
                        assert(before_child.visited.as_set().contains(ch@[j]));
                    }
                    assert(before_child.visited.as_set().contains(c));
                    assert(self.visited.as_set().contains(c));
                }
                if r.is_none() {
                    proof {
                        assert forall|i: int|
                            0 <= i < self.path@.len() implies self.visited.as_set().contains(
                            #[trigger] self.path@[i],
                        ) by {
                            if i < entry.path@.len() {
                                assert(self.path@[i] == entry.path@[i]);
                                assert(entry.visited.as_set().contains(entry.path@[i]));
                            } else {
                                assert(self.path@[i] == node);
                                assert(entry.visited.as_set().contains(node));
                            }
                        }
                        assert forall|m: G::Node|
                            #[trigger] self.visited.as_set().contains(m)
                                && !entry.visited.as_set().contains(m)
                            implies !graph.spec_is_goal(m) && (forall|cc: G::Node|
                            (#[trigger] graph.spec_children(m).contains(cc))
                                ==> self.visited.as_set().contains(cc)) by {
                            if m == c {
                                assert(!graph.spec_is_goal(c));
                            } else if at_iter.contains(m) {
                                assert forall|cc: G::Node|
                                    (#[trigger] graph.spec_children(m).contains(cc))
                                    implies self.visited.as_set().contains(cc) by {
                                    assert(at_iter.contains(cc));
                                    assert(before_child.visited.as_set().contains(cc));
                                }
                            } else {
                                assert(!before_child.visited.as_set().contains(m));
                            }
                        }
                    }
                }
                if let Some(m) = r {
                    proof {
                        let pl = entry.path@.len() as int;
                        let bl = before_child.path@.len() as int;
                        let fl = self.path@.len() as int;
                        assert(before_child.path@ == entry.path@.push(node));
                        assert(bl == pl + 1);
                        assert(self.path@.subrange(0, bl) == before_child.path@);
                        assert(self.path@.subrange(0, pl) =~= entry.path@);
                        let suffix_c = self.path@.subrange(bl, fl);
                        assert(connects(*graph, suffix_c, c, m));
                        lemma_connects_prepend(*graph, suffix_c, c, m, node);
                        assert(self.path@.subrange(pl, fl) =~= seq![node] + suffix_c);
                    }
                    return Some(m);
                }
            }
            k = k + 1;
        }
        let _ = self.path.pop();
        proof {
            assert(self.path@ =~= entry.path@);
        }
        None
    }
}

impl<G: Graph> Default for DFS<G> {
    fn default() -> (r: Self)
        ensures
            r.wf(),
            r.spec_solution() is None,
            r.spec_visited() == Set::<G::Node>::empty(),
    {
        Self::new()
    }
}

impl<G: Graph> GraphSearcher<G> for DFS<G> {
    closed spec fn wf(&self) -> bool {
        &&& self.visited.wf()
        &&& (self.solution matches Some(sol) ==> {
            &&& self.root_node == Some(self.run_root@)
            &&& connects(self.graph@, self.path@, self.run_root@, sol)
            &&& self.path@.no_duplicates()
        })
    }

    closed spec fn spec_graph(&self) -> G {
        self.graph@
    }

    closed spec fn spec_run_root(&self) -> G::Node {
        self.run_root@
    }

    closed spec fn spec_visited(&self) -> Set<G::Node> {
        self.visited.as_set()
    }

    closed spec fn spec_solution(&self) -> Option<G::Node> {
        self.solution
    }

    fn search_tracked(&mut self, graph: &G, root: G::Node) -> (r: Option<G::Node>)
        ensures
            r is None ==> forall|m: G::Node|
                reachable(*graph, root, m) ==> !graph.spec_is_goal(m),
            r is None ==> forall|m: G::Node|
                reachable(*graph, root, m) ==> final(self).spec_visited().contains(m),
            graph.spec_is_goal(root) ==> r == Some(root),
    {
        proof {
            G::node_eq_agrees();
            graph.children_in_nodes();
        }
        self.graph = Ghost(*graph);
        self.run_root = Ghost(root);
        self.root_node = Some(root);
        self.visited = VisitedSet::new();
        self.path = Vec::new();
        self.solution = None;
        let ghost univ = graph.spec_nodes().to_set().insert(root);
        proof {
            seq_to_set_is_finite::<G::Node>(graph.spec_nodes());
            lemma_connects_trivial(*graph, root);
        }
        self.visited.insert(root);
        proof {
            self.visited.lemma_card();
            lemma_len_subset(self.visited.as_set(), univ);
        }
        let ghost started = *self;
        let r = self.dfs_rec(graph, root, Ghost(root), Ghost(univ));
        match r {
            Some(m) => {
                self.solution = Some(m);
                proof {
                    self.visited.lemma_card();
                    assert(started.visited.as_set().contains(root));
                    assert(self.visited.as_set().contains(root));
                    assert(self.path@.subrange(0, self.path@.len() as int) =~= self.path@);
                }
                Some(m)
            },
            None => {
                proof {
                    self.visited.lemma_card();
                    assert(started.visited.as_set().contains(root));
                    assert(self.visited.as_set().contains(root));
                    let vs = self.visited.as_set();
                    assert forall|m: G::Node| reachable(*graph, root, m) implies (
                    !graph.spec_is_goal(m) && vs.contains(m)) by {
                        assert forall|n: G::Node, c: G::Node|
                            vs.contains(n) && #[trigger] graph.spec_children(n).contains(c)
                            implies vs.contains(c) by {
                            if started.visited.as_set().contains(n) {
                                assert(n == root);
                                assert(graph.spec_children(root).contains(c));
                            }
                        }
                        lemma_closed_set_bounds_reachable(*graph, vs, root, m);
                        if m != root && !started.visited.as_set().contains(m) {
                            assert(!graph.spec_is_goal(m));
                        }
                    }
                }
                None
            },
        }
    }

    fn search(graph: &G, root: G::Node) -> (r: Option<G::Node>)
        ensures
            r is None ==> forall|m: G::Node|
                reachable(*graph, root, m) ==> !graph.spec_is_goal(m),
            graph.spec_is_goal(root) ==> r == Some(root),
    {
        proof {
            G::node_eq_agrees();
            graph.children_in_nodes();
        }
        let ghost univ = graph.spec_nodes().to_set().insert(root);
        proof {
            seq_to_set_is_finite::<G::Node>(graph.spec_nodes());
            lemma_connects_trivial(*graph, root);
        }
        let mut visited: VisitedSet<G::Node> = VisitedSet::new();
        visited.insert(root);
        proof {
            visited.lemma_card();
            lemma_len_subset(visited.as_set(), univ);
        }
        let ghost started = visited;
        let r = dfs_rec_local::<G>(graph, root, &mut visited, Ghost(root), Ghost(univ));
        proof {
            if r is None {
                assert(started.as_set().contains(root));
                assert(visited.as_set().contains(root));
                let vs = visited.as_set();
                assert forall|m: G::Node| reachable(*graph, root, m) implies !graph.spec_is_goal(
                    m,
                ) by {
                    assert forall|n: G::Node, c: G::Node|
                        vs.contains(n) && #[trigger] graph.spec_children(n).contains(c)
                        implies vs.contains(c) by {
                        if started.as_set().contains(n) {
                            assert(n == root);
                            assert(graph.spec_children(root).contains(c));
                        }
                    }
                    lemma_closed_set_bounds_reachable(*graph, vs, root, m);
                    if m != root && !started.as_set().contains(m) {
                        assert(!graph.spec_is_goal(m));
                    }
                }
            }
        }
        r
    }

    fn nodes_visited(&self) -> (r: usize) {
        self.visited.len()
    }

    fn is_visited(&self, node: G::Node) -> (r: bool) {
        proof {
            G::node_eq_agrees();
        }
        self.visited.contains(node)
    }

    fn path(&self) -> (r: Option<Vec<G::Node>>)
        ensures
            r matches Some(p) ==> p@.no_duplicates(),
    {
        match self.solution {
            None => None,
            Some(_) => Some(copy_nodes(&self.path)),
        }
    }
}

/// The stateless depth-first descent: like [`DFS::dfs_rec`] but over a
/// visited set local to the call and without a path stack.
fn dfs_rec_local<G: Graph>(
    graph: &G,
    node: G::Node,
    visited: &mut VisitedSet<G::Node>,
    Ghost(root): Ghost<G::Node>,
    Ghost(univ): Ghost<Set<G::Node>>,
) -> (r: Option<G::Node>)
    requires
        node_eq_facts::<G::Node>(),
        forall|n: G::Node, c: G::Node|
            (#[trigger] graph.spec_children(n).contains(c)) ==> graph.spec_nodes().contains(c),
        univ == graph.spec_nodes().to_set().insert(root),
        univ.finite(),
        old(visited).wf(),
        old(visited).as_set().contains(node),
        reachable(*graph, root, node),
        forall|n: G::Node| #[trigger] old(visited).as_set().contains(n) ==> univ.contains(n),
        forall|n: G::Node|
            #[trigger] old(visited).as_set().contains(n) ==> reachable(*graph, root, n),
        old(visited)@.len() <= univ.len(),
        old(visited).as_set().len() == old(visited)@.len(),
    ensures
        final(visited).wf(),
        forall|n: G::Node|
            #[trigger] old(visited).as_set().contains(n) ==> final(visited).as_set().contains(n),
        forall|n: G::Node| #[trigger] final(visited).as_set().contains(n) ==> univ.contains(n),
        forall|n: G::Node|
            #[trigger] final(visited).as_set().contains(n) ==> reachable(*graph, root, n),
        final(visited)@.len() <= univ.len(),
        final(visited).as_set().len() == final(visited)@.len(),
        old(visited)@.len() <= final(visited)@.len(),
        graph.spec_is_goal(node) ==> r == Some(node),
        r matches Some(m) ==> graph.spec_is_goal(m) && reachable(*graph, node, m),
        r is None ==> {
            &&& !graph.spec_is_goal(node)
            &&& forall|c: G::Node|
                (#[trigger] graph.spec_children(node).contains(c)) ==> final(visited).as_set().contains(c)
            &&& forall|m: G::Node|
                #[trigger] final(visited).as_set().contains(m) && !old(visited).as_set().contains(m) ==> !graph.spec_is_goal(m) && (forall|c: G::Node|
                    (#[trigger] graph.spec_children(m).contains(c)) ==> final(visited).as_set().contains(c))
        },
    decreases univ.len() - visited@.len(),
{
    if graph.is_goal(node) {
        proof {
            lemma_connects_trivial(*graph, node);
        }
        return Some(node);
    }
    let ghost entry = *visited;
    let ch = graph.children(node);
    let mut k: usize = 0;
    while k < ch.len()
        invariant
            node_eq_facts::<G::Node>(),
            forall|n: G::Node, c: G::Node|
                (#[trigger] graph.spec_children(n).contains(c)) ==> graph.spec_nodes().contains(c),
            univ == graph.spec_nodes().to_set().insert(root),
            univ.finite(),
            entry == *old(visited),
            ch@ == graph.spec_children(node),
            0 <= k <= ch@.len(),
            !graph.spec_is_goal(node),
            visited.wf(),
            visited.as_set().contains(node),
            reachable(*graph, root, node),
            entry.as_set().contains(node),
            forall|n: G::Node|
                #[trigger] entry.as_set().contains(n) ==> visited.as_set().contains(n),
            forall|n: G::Node| #[trigger] visited.as_set().contains(n) ==> univ.contains(n),
            forall|n: G::Node|
                #[trigger] visited.as_set().contains(n) ==> reachable(*graph, root, n),
            visited@.len() <= univ.len(),
            visited.as_set().len() == visited@.len(),
            entry@.len() <= visited@.len(),
            forall|j: int| 0 <= j < k ==> visited.as_set().contains(#[trigger] ch@[j]),
            forall|m: G::Node|
                #[trigger] visited.as_set().contains(m) && !entry.as_set().contains(m)
                    ==> !graph.spec_is_goal(m) && (forall|c: G::Node|
                    (#[trigger] graph.spec_children(m).contains(c)) ==> visited.as_set().contains(
                        c,
                    )),
        decreases ch@.len() - k,
    {
        let c = ch[k];
        proof {
            assert(ch@[k as int] == c);
            assert(graph.spec_children(node).contains(c));
        }
        if !visited.contains(c) {
            let ghost at_iter = visited.as_set();
            proof {
                let pr = choose|p: Seq<G::Node>| connects(*graph, p, root, node);
                lemma_connects_extend(*graph, pr, root, node, c);
            }
            visited.insert(c);
            proof {
                visited.lemma_card();
                lemma_len_subset(visited.as_set(), univ);
            }
            let ghost before_child = *visited;
            let r = dfs_rec_local::<G>(graph, c, visited, Ghost(root), Ghost(univ));
            proof {
                assert forall|n: G::Node| #[trigger] entry.as_set().contains(n)
                    implies visited.as_set().contains(n) by {
                    assert(before_child.as_set().contains(n));
                }
                assert forall|j: int| 0 <= j < k implies visited.as_set().contains(
                    #[trigger] ch@[j],
                ) by {
                    assert(before_child.as_set().contains(ch@[j]));
                }
                assert(before_child.as_set().contains(c));
                assert(visited.as_set().contains(c));
            }
            if r.is_none() {
                proof {
                    assert forall|m: G::Node|
                        #[trigger] visited.as_set().contains(m) && !entry.as_set().contains(m)
                        implies !graph.spec_is_goal(m) && (forall|cc: G::Node|
                        (#[trigger] graph.spec_children(m).contains(cc))
                            ==> visited.as_set().contains(cc)) by {
                        if m == c {
                            assert(!graph.spec_is_goal(c));
                        } else if at_iter.contains(m) {
                            assert forall|cc: G::Node|
                                (#[trigger] graph.spec_children(m).contains(cc))
                                implies visited.as_set().contains(cc) by {
                                assert(at_iter.contains(cc));
                                assert(before_child.as_set().contains(cc));
                            }
                        } else {
                            assert(!before_child.as_set().contains(m));
                        }
                    }
                }
            }
            if let Some(m) = r {
                proof {
                    let pm = choose|p: Seq<G::Node>| connects(*graph, p, c, m);
                    lemma_connects_prepend(*graph, pm, c, m, node);
                }
                return Some(m);
            }
        }
        k = k + 1;
    }
    None
}


/// A depth-limited search from `n` with `depth` entries of budget finds a
/// goal: the budget is positive and either `n` itself is a goal or some
/// child subtree succeeds with one entry less.
pub open spec fn dl_found<G: Graph>(g: G, n: G::Node, depth: nat) -> bool
    decreases depth,
{
    depth > 0 && (g.spec_is_goal(n) || exists|i: int|
        0 <= i < g.spec_children(n).len() && dl_found(
            g,
            g.spec_children(n)[i],
            (depth - 1) as nat,
        ))
}

/// A walk from `a` to a goal witnesses success of the depth-limited search
/// whose budget is the walk's node count.
pub proof fn lemma_walk_gives_dl_found<G: Graph>(g: G, p: Seq<G::Node>, a: G::Node, m: G::Node)
    requires
        connects(g, p, a, m),
        g.spec_is_goal(m),
    ensures
        dl_found(g, a, p.len() as nat),
    decreases p.len(),
{
    if p.len() == 1 {
        assert(a == m);
    } else {
        let q = p.subrange(1, p.len() as int);
        assert forall|i: int| 0 <= i < q.len() - 1 implies (#[trigger] g.spec_children(
            q[i],
        )).contains(q[i + 1]) by {
            let j = i + 1;
            assert(q[i] == p[j] && q[i + 1] == p[j + 1]);
            assert(g.spec_children(p[j]).contains(p[j + 1]));
        }
        assert(q[0] == p[1] && q[q.len() - 1] == p[p.len() - 1]);
        lemma_walk_gives_dl_found(g, q, p[1], m);
        assert(g.spec_children(a).contains(p[1]));
        let i = choose|i: int|
            0 <= i < g.spec_children(a).len() && g.spec_children(a)[i] == p[1];
        assert(dl_found(g, g.spec_children(a)[i], (p.len() - 1) as nat));
    }
}

/// An iterative-deepening depth-first searcher: depth-limited passes with
/// limits 0, 1, 2, ... until one finds a goal. Its visitation counter counts
/// node entries accumulated over all passes, not distinct nodes. On a graph
/// with no reachable goal the deepening would never stop, so a run demands a
/// reachable goal up front.
pub struct IterDeepening<G: Graph> {
    visited: VisitedSet<G::Node>,
    path: Vec<G::Node>,
    counter: usize,
    solution: Option<G::Node>,
    root_node: Option<G::Node>,
    run_root: Ghost<G::Node>,
    graph: Ghost<G>,
}

impl<G: Graph> IterDeepening<G> {
    /// The searcher's bookkeeping is consistent; `new` establishes it and
    /// every method preserves it.
    pub closed spec fn wf(&self) -> bool {
        &&& self.visited.wf()
        &&& (self.solution matches Some(sol) ==> {
            &&& self.root_node == Some(self.run_root@)
            &&& connects(self.graph@, self.path@, self.run_root@, sol)
            &&& forall|q: Seq<G::Node>, m: G::Node|
                #![trigger connects(self.graph@, q, self.run_root@, m)]
                connects(self.graph@, q, self.run_root@, m) && self.graph@.spec_is_goal(m)
                    ==> q.len() >= self.path@.len()
        })
    }

    /// The graph of the most recent tracked run.
    pub closed spec fn spec_graph(&self) -> G {
        self.graph@
    }

    /// The root of the most recent tracked run.
    pub closed spec fn spec_run_root(&self) -> G::Node {
        self.run_root@
    }

    /// The nodes marked visited by the most recent tracked run.
    pub closed spec fn spec_visited(&self) -> Set<G::Node> {
        self.visited.as_set()
    }

    /// The goal the most recent tracked run found, if any.
    pub closed spec fn spec_solution(&self) -> Option<G::Node> {
        self.solution
    }

    /// Total node entries over all depth passes of the most recent run.
    pub closed spec fn spec_counter(&self) -> usize {
        self.counter
    }

    pub fn new() -> (r: Self)
        ensures
            r.wf(),
            r.spec_solution() is None,
            r.spec_visited() == Set::<G::Node>::empty(),
            r.spec_counter() == 0,
    {
        let r = IterDeepening {
            visited: VisitedSet::new(),
            path: Vec::new(),
            counter: 0,
            solution: None,
            root_node: None,
            run_root: Ghost(arbitrary()),
            graph: Ghost(arbitrary()),
        };
        proof {
            assert(r.spec_visited() =~= Set::<G::Node>::empty());
        }
        r
    }

    /// One depth-limited pass: enter `node`, which marks it and counts the
    /// entry, and explore below it while the budget lasts. Exhausting the
    /// budget is "nothing found at this depth", not failure of the search.
    fn dl_search_tracked(
        &mut self,
        graph: &G,
        node: G::Node,
        depth: usize,
        Ghost(root): Ghost<G::Node>,
    ) -> (r: Option<G::Node>)
        requires
            node_eq_facts::<G::Node>(),
            old(self).graph@ == *graph,
            old(self).run_root@ == root,
            old(self).root_node == Some(root),
            old(self).solution is None,
            old(self).visited.wf(),
            reachable(*graph, root, node),
            forall|n: G::Node|
                #[trigger] old(self).visited.as_set().contains(n) ==> reachable(*graph, root, n),
            forall|i: int|
                0 <= i < old(self).path@.len() - 1 ==> (#[trigger] graph.spec_children(
                    old(self).path@[i],
                )).contains(old(self).path@[i + 1]),
            old(self).path@.len() > 0 ==> old(self).path@[0] == root && graph.spec_children(
                old(self).path@[old(self).path@.len() - 1],
            ).contains(node),
            old(self).path@.len() == 0 ==> node == root,
        ensures
            final(self).graph@ == *graph,
            final(self).run_root@ == root,
            final(self).root_node == Some(root),
            final(self).solution is None,
            final(self).visited.wf(),
            forall|n: G::Node|
                #[trigger] old(self).visited.as_set().contains(n) ==> final(self).visited.as_set().contains(n),
            forall|n: G::Node|
                #[trigger] final(self).visited.as_set().contains(n) ==> reachable(*graph, root, n),
            final(self).visited.as_set().contains(node),
            final(self).counter >= old(self).counter,
            r is Some <==> dl_found(*graph, node, depth as nat),
            r matches Some(m) ==> {
                &&& graph.spec_is_goal(m)
                &&& reachable(*graph, node, m)
                &&& final(self).path@.len() > old(self).path@.len()
                &&& final(self).path@.len() <= old(self).path@.len() + depth
                &&& final(self).path@.subrange(0, old(self).path@.len() as int) == old(self).path@
                &&& connects(
                    *graph,
                    final(self).path@.subrange(
                        old(self).path@.len() as int,
                        final(self).path@.len() as int,
                    ),
                    node,
                    m,
                )
            },
            r is None ==> final(self).path@ == old(self).path@,
        decreases depth,
    {
        let ghost entry = *self;
        if !self.visited.contains(node) {
            self.visited.insert(node);
        }
        if self.counter < usize::MAX {
            self.counter = self.counter + 1;
        }
        self.path.push(node);
        if depth == 0 {
            let _ = self.path.pop();
            proof {
                assert(self.path@ =~= entry.path@);
            }
            return None;
        }
        if graph.is_goal(node) {
            proof {
                lemma_connects_trivial(*graph, node);
                assert(self.path@.subrange(0, entry.path@.len() as int) =~= entry.path@);
                assert(self.path@.subrange(
                    entry.path@.len() as int,
                    self.path@.len() as int,
                ) =~= seq![node]);
            }
            return Some(node);
        }
        let ch = graph.children(node);
        let mut k: usize = 0;
        while k < ch.len()
            invariant
                node_eq_facts::<G::Node>(),
                entry == *old(self),
                ch@ == graph.spec_children(node),
                0 <= k <= ch@.len(),
                depth >= 1,
                !graph.spec_is_goal(node),
                self.graph@ == *graph,
                self.run_root@ == root,
                self.root_node == Some(root),
                self.solution is None,
                self.visited.wf(),
                self.visited.as_set().contains(node),
                reachable(*graph, root, node),
                self.path@ == entry.path@.push(node),
                self.counter >= entry.counter,
                forall|n: G::Node|
                    #[trigger] entry.visited.as_set().contains(n) ==> self.visited.as_set().contains(
                        n,
                    ),
                forall|n: G::Node|
                    #[trigger] self.visited.as_set().contains(n) ==> reachable(*graph, root, n),
                forall|i: int|
                    0 <= i < entry.path@.len() - 1 ==> (#[trigger] graph.spec_children(
                        entry.path@[i],
                    )).contains(entry.path@[i + 1]),
                entry.path@.len() > 0 ==> entry.path@[0] == root && graph.spec_children(
                    entry.path@[entry.path@.len() - 1],
                ).contains(node),
                entry.path@.len() == 0 ==> node == root,
                forall|j: int|
                    0 <= j < k ==> !dl_found(*graph, #[trigger] ch@[j], (depth - 1) as nat),
            decreases ch@.len() - k,
        {
            let c = ch[k];
            proof {
                assert(ch@[k as int] == c);
                assert(graph.spec_children(node).contains(c));
                let pr = choose|p: Seq<G::Node>| connects(*graph, p, root, node);
                lemma_connects_extend(*graph, pr, root, node, c);
                assert forall|i: int| 0 <= i < self.path@.len() - 1 implies (
                #[trigger] graph.spec_children(self.path@[i])).contains(
                    self.path@[i + 1],
                ) by {
                    if i < entry.path@.len() - 1 {
                        assert(self.path@[i] == entry.path@[i]);
                        assert(self.path@[i + 1] == entry.path@[i + 1]);
                        assert(graph.spec_children(entry.path@[i]).contains(
                            entry.path@[i + 1],
                        ));
                    } else {
                        assert(self.path@[i + 1] == node);
                    }
                }
                assert(self.path@[self.path@.len() - 1] == node);
                if entry.path@.len() > 0 {
                    assert(self.path@[0] == entry.path@[0]);
                }
            }
            let ghost before_child = *self;
            let r = self.dl_search_tracked(graph, c, depth - 1, Ghost(root));
            proof {
                assert forall|n: G::Node|
                    #[trigger] entry.visited.as_set().contains(n)
                    implies self.visited.as_set().contains(n) by {
                    assert(before_child.visited.as_set().contains(n));
                }
            }
            if let Some(m) = r {
                proof {
                    let pl = entry.path@.len() as int;
                    let bl = before_child.path@.len() as int;
                    let fl = self.path@.len() as int;
                    assert(before_child.path@ == entry.path@.push(node));
                    assert(bl == pl + 1);
                    assert(self.path@.subrange(0, bl) == before_child.path@);
                    assert(self.path@.subrange(0, pl) =~= entry.path@);
                    let suffix_c = self.path@.subrange(bl, fl);
                    assert(connects(*graph, suffix_c, c, m));
                    lemma_connects_prepend(*graph, suffix_c, c, m, node);
                    assert(self.path@.subrange(pl, fl) =~= seq![node] + suffix_c);
                    let i = choose|i: int|
                        0 <= i < graph.spec_children(node).len() && graph.spec_children(node)[i]
                            == c;
                    assert(dl_found(*graph, graph.spec_children(node)[i], (depth - 1) as nat));
                    assert(dl_found(*graph, node, depth as nat));
                }
                return Some(m);
            }
            k = k + 1;
        }
        let _ = self.path.pop();
        proof {
            assert(self.path@ =~= entry.path@);
            assert(!dl_found(*graph, node, depth as nat)) by {
                if dl_found(*graph, node, depth as nat) {
                    let i = choose|i: int|
                        0 <= i < graph.spec_children(node).len() && dl_found(
                            *graph,
                            graph.spec_children(node)[i],
                            (depth - 1) as nat,
                        );
                    assert(!dl_found(*graph, ch@[i], (depth - 1) as nat));
                }
            }
        }
        None
    }

    /// One stateless depth-limited pass from `node`.
    fn dl_search(graph: &G, node: G::Node, depth: usize) -> (r: Option<G::Node>)
        ensures
            r is Some <==> dl_found(*graph, node, depth as nat),
            r matches Some(m) ==> graph.spec_is_goal(m) && reachable(*graph, node, m)
                && dist_at_most(*graph, node, m, depth - 1),
        decreases depth,
    {
        if depth == 0 {
            return None;
        }
        if graph.is_goal(node) {
            proof {
                lemma_connects_trivial(*graph, node);
                assert(connects(*graph, seq![node], node, node) && seq![node].len() <= depth);
            }
            return Some(node);
        }
        let ch = graph.children(node);
        let mut k: usize = 0;
        while k < ch.len()
            invariant
                ch@ == graph.spec_children(node),
                0 <= k <= ch@.len(),
                depth >= 1,
                !graph.spec_is_goal(node),
                forall|j: int|
                    0 <= j < k ==> !dl_found(*graph, #[trigger] ch@[j], (depth - 1) as nat),
            decreases ch@.len() - k,
        {
            let c = ch[k];
            proof {
                assert(ch@[k as int] == c);
                assert(graph.spec_children(node).contains(c));
            }
            let r = Self::dl_search(graph, c, depth - 1);
            if let Some(m) = r {
                proof {
                    let pm = choose|p: Seq<G::Node>|
                        connects(*graph, p, c, m) && p.len() <= depth - 1;
                    lemma_connects_prepend(*graph, pm, c, m, node);
                    assert((seq![node] + pm).len() <= depth);
                    let i = choose|i: int|
                        0 <= i < graph.spec_children(node).len() && graph.spec_children(node)[i]
                            == c;
                    assert(dl_found(*graph, graph.spec_children(node)[i], (depth - 1) as nat));
                    assert(dl_found(*graph, node, depth as nat));
                }
                return Some(m);
            }
            k = k + 1;
        }
        proof {
            assert(!dl_found(*graph, node, depth as nat)) by {
                if dl_found(*graph, node, depth as nat) {
                    let i = choose|i: int|
                        0 <= i < graph.spec_children(node).len() && dl_found(
                            *graph,
                            graph.spec_children(node)[i],
                            (depth - 1) as nat,
                        );
                    assert(!dl_found(*graph, ch@[i], (depth - 1) as nat));
                }
            }
        }
        None
    }

    /// Run the deepening passes, keeping bookkeeping for later queries. A
    /// goal must be reachable along some machine-representable walk: without
    /// one the deepening would, by design, never stop.
    pub fn search_tracked(&mut self, graph: &G, root: G::Node) -> (r: Option<G::Node>)
        requires
            old(self).wf(),
            exists|p: Seq<G::Node>, m: G::Node|
                connects(*graph, p, root, m) && graph.spec_is_goal(m) && p.len() <= usize::MAX,
        ensures
            final(self).wf(),
            final(self).spec_graph() == *graph,
            final(self).spec_run_root() == root,
            final(self).spec_solution() == r,
            r is Some,
            r matches Some(n) ==> graph.spec_is_goal(n) && reachable(*graph, root, n),
            r matches Some(n) ==> forall|m: G::Node, k: int|
                graph.spec_is_goal(m) && #[trigger] dist_at_most(*graph, root, m, k)
                    ==> dist_at_most(*graph, root, n, k),
            final(self).spec_visited().contains(root),
            forall|m: G::Node|
                #[trigger] final(self).spec_visited().contains(m) ==> reachable(*graph, root, m),
    {
        proof {
            G::node_eq_agrees();
        }
        self.graph = Ghost(*graph);
        self.run_root = Ghost(root);
        self.root_node = Some(root);
        self.visited = VisitedSet::new();
        self.path = Vec::new();
        self.counter = 0;
        self.solution = None;
        let ghost (pw, gm) = choose|p: Seq<G::Node>, m: G::Node|
            connects(*graph, p, root, m) && graph.spec_is_goal(m) && p.len() <= usize::MAX;
        proof {
            lemma_walk_gives_dl_found(*graph, pw, root, gm);
            lemma_connects_trivial(*graph, root);
        }
        let mut depth: usize = 0;
        loop
            invariant
                node_eq_facts::<G::Node>(),
                self.graph@ == *graph,
                self.run_root@ == root,
                self.root_node == Some(root),
                self.solution is None,
                self.visited.wf(),
                reachable(*graph, root, root),
                forall|n: G::Node|
                    #[trigger] self.visited.as_set().contains(n) ==> reachable(*graph, root, n),
                dl_found(*graph, root, pw.len() as nat),
                pw.len() <= usize::MAX,
                depth <= pw.len(),
                forall|dd: int| 0 <= dd < depth ==> !dl_found(*graph, root, #[trigger] (dd as nat)),
            decreases pw.len() - depth,
        {
            self.path = Vec::new();
            let r = self.dl_search_tracked(graph, root, depth, Ghost(root));
            if let Some(n) = r {
                self.solution = Some(n);
                proof {
                    assert(self.path@.subrange(0, self.path@.len() as int) =~= self.path@);
                    assert(connects(*graph, self.path@, root, n));
                    assert(self.path@.len() <= depth);
                    assert forall|q: Seq<G::Node>, m: G::Node|
                        #![trigger connects(*graph, q, root, m)]
                        connects(*graph, q, root, m) && graph.spec_is_goal(m) implies q.len()
                        >= self.path@.len() by {
                        lemma_walk_gives_dl_found(*graph, q, root, m);
                        if q.len() < depth {
                            let dd: int = q.len() as int;
                            assert(!dl_found(*graph, root, dd as nat));
                        }
                        assert(q.len() >= depth);
                    }
                    assert forall|m: G::Node, k: int|
                        graph.spec_is_goal(m) && #[trigger] dist_at_most(*graph, root, m, k)
                        implies dist_at_most(*graph, root, n, k) by {
                        let w = choose|w: Seq<G::Node>|
                            connects(*graph, w, root, m) && w.len() <= k + 1;
                        assert(w.len() >= self.path@.len());
                        assert(connects(*graph, self.path@, root, n) && self.path@.len() <= k
                            + 1);
                    }
                }
                return Some(n);
            }
            proof {
                assert(depth < pw.len());
            }
            depth = depth + 1;
        }
    }

    /// Run the deepening passes without bookkeeping; the same reachability
    /// demand as [`IterDeepening::search_tracked`] applies.
    pub fn search(graph: &G, root: G::Node) -> (r: Option<G::Node>)
        requires
            exists|p: Seq<G::Node>, m: G::Node|
                connects(*graph, p, root, m) && graph.spec_is_goal(m) && p.len() <= usize::MAX,
        ensures
            r is Some,
            r matches Some(n) ==> graph.spec_is_goal(n) && reachable(*graph, root, n),
            r matches Some(n) ==> forall|m: G::Node, k: int|
                graph.spec_is_goal(m) && #[trigger] dist_at_most(*graph, root, m, k)
                    ==> dist_at_most(*graph, root, n, k),
    {
        let ghost (pw, gm) = choose|p: Seq<G::Node>, m: G::Node|
            connects(*graph, p, root, m) && graph.spec_is_goal(m) && p.len() <= usize::MAX;
        proof {
            lemma_walk_gives_dl_found(*graph, pw, root, gm);
        }
        let mut depth: usize = 0;
        loop
            invariant
                dl_found(*graph, root, pw.len() as nat),
                pw.len() <= usize::MAX,
                depth <= pw.len(),
                forall|dd: int| 0 <= dd < depth ==> !dl_found(*graph, root, #[trigger] (dd as nat)),
            decreases pw.len() - depth,
        {
            let r = Self::dl_search(graph, root, depth);
            if let Some(n) = r {
                proof {
                    assert(dist_at_most(*graph, root, n, depth - 1));
                    assert forall|m: G::Node, k: int|
                        graph.spec_is_goal(m) && #[trigger] dist_at_most(*graph, root, m, k)
                        implies dist_at_most(*graph, root, n, k) by {
                        let w = choose|w: Seq<G::Node>|
                            connects(*graph, w, root, m) && w.len() <= k + 1;
                        lemma_walk_gives_dl_found(*graph, w, root, m);
                        if w.len() < depth {
                            let dd: int = w.len() as int;
                            assert(!dl_found(*graph, root, dd as nat));
                        }
                        assert(w.len() >= depth);
                        let v = choose|v: Seq<G::Node>|
                            connects(*graph, v, root, n) && v.len() <= depth - 1 + 1;
                        assert(v.len() <= k + 1);
                    }
                }
                return Some(n);
            }
            proof {
                assert(depth < pw.len());
            }
            depth = depth + 1;
        }
    }

    /// Total node entries across all depth passes of the most recent tracked
    /// run. Unlike the other algorithms this counts repeated entries, so it
    /// may exceed the number of distinct nodes.
    pub fn nodes_visited(&self) -> (r: usize)
        ensures
            r == self.spec_counter(),
    {
        self.counter
    }

    /// Whether `node` was entered in the most recent tracked run.
    pub fn is_visited(&self, node: G::Node) -> (r: bool)
        requires
            self.wf(),
        ensures
            r == self.spec_visited().contains(node),
    {
        proof {
            G::node_eq_agrees();
        }
        self.visited.contains(node)
    }

    /// The root-to-goal path of the most recent successful tracked run, or
    /// `None` when no tracked run has succeeded since the last reset.
    pub fn path(&self) -> (r: Option<Vec<G::Node>>)
        requires
            self.wf(),
        ensures
            r is Some <==> self.spec_solution() is Some,
            r matches Some(p) ==> (self.spec_solution() matches Some(sol) && connects(
                self.spec_graph(),
                p@,
                self.spec_run_root(),
                sol,
            )),
            r matches Some(p) ==> forall|q: Seq<G::Node>, m: G::Node|
                #![trigger connects(self.spec_graph(), q, self.spec_run_root(), m)]
                connects(self.spec_graph(), q, self.spec_run_root(), m) && self.spec_graph(
                ).spec_is_goal(m) ==> q.len() >= p@.len(),
    {
        match self.solution {
            None => None,
            Some(_) => Some(copy_nodes(&self.path)),
        }
    }
}

impl<G: Graph> Default for IterDeepening<G> {
    fn default() -> (r: Self)
        ensures
            r.wf(),
            r.spec_solution() is None,
            r.spec_visited() == Set::<G::Node>::empty(),
            r.spec_counter() == 0,
    {
        Self::new()
    }
}

} // verus!
