//! The uniform contract every search strategy exposes: a stateful tracked
//! run, a stateless run, visitation queries and path reconstruction.
//!
//! The contracts here are the ones every algorithm meets; the individual
//! implementations strengthen them (for instance with a stronger
//! no-solution clause, or optimality guarantees) in their own `impl`.

use vstd::prelude::*;
use crate::graph::Graph;
use crate::graph::WeightedGraph;
use crate::graph::connects;
use crate::graph::reachable;
use crate::graph::walk_cost;

verus! {

/// A search strategy over an unweighted graph.
///
/// A searcher is created well formed, stays well formed, and may be reused:
/// every tracked run resets all per-run state first, so its outcome depends
/// only on the graph and root it is given.
pub trait GraphSearcher<G: Graph>: Sized {
    /// The searcher's internal bookkeeping is consistent. Constructors
    /// establish this and every method preserves it.
    spec fn wf(&self) -> bool;

    /// The graph of the most recent tracked run.
    spec fn spec_graph(&self) -> G;

    /// The root of the most recent tracked run.
    spec fn spec_run_root(&self) -> G::Node;

    /// The nodes marked visited by the most recent tracked run.
    spec fn spec_visited(&self) -> Set<G::Node>;

    /// The goal the most recent tracked run found, if any.
    spec fn spec_solution(&self) -> Option<G::Node>;

    /// Run the search, keeping bookkeeping for later queries. Any state of a
    /// prior run is cleared first. A node is returned exactly when it is a
    /// reachable goal; `None` means no goal other than possibly the root
    /// itself is reachable (the implementations that also test the root
    /// strengthen this to: no goal at all is reachable).
    fn search_tracked(&mut self, graph: &G, root: G::Node) -> (r: Option<G::Node>)
        requires
            old(self).wf(),
        ensures
            final(self).wf(),
            final(self).spec_graph() == *graph,
            final(self).spec_run_root() == root,
            final(self).spec_solution() == r,
            r matches Some(n) ==> graph.spec_is_goal(n) && reachable(*graph, root, n),
            r is None ==> forall|m: G::Node|
                reachable(*graph, root, m) && #[trigger] graph.spec_is_goal(m) ==> m == root,
            final(self).spec_visited().contains(root),
            final(self).spec_visited().finite(),
            forall|m: G::Node|
                #[trigger] final(self).spec_visited().contains(m) ==> reachable(*graph, root, m),
    ;

    /// Run the search without bookkeeping beyond what is needed to avoid
    /// revisiting nodes; cheaper when only the goal node matters.
    fn search(graph: &G, root: G::Node) -> (r: Option<G::Node>)
        ensures
            r matches Some(n) ==> graph.spec_is_goal(n) && reachable(*graph, root, n),
            r is None ==> forall|m: G::Node|
                reachable(*graph, root, m) && #[trigger] graph.spec_is_goal(m) ==> m == root,
    ;

    /// How many distinct nodes the most recent tracked run visited.
    fn nodes_visited(&self) -> (r: usize)
        requires
            self.wf(),
        ensures
            r == self.spec_visited().len(),
    ;

    /// Whether `node` was visited in the most recent tracked run.
    fn is_visited(&self, node: G::Node) -> (r: bool)
        requires
            self.wf(),
        ensures
            r == self.spec_visited().contains(node),
    ;

    /// The root-to-goal path of the most recent successful tracked run, or
    /// `None` when no tracked run has succeeded since the last reset.
    fn path(&self) -> (r: Option<Vec<G::Node>>)
        requires
            self.wf(),
        ensures
            r is Some <==> self.spec_solution() is Some,
            r matches Some(p) ==> (self.spec_solution() matches Some(sol) && connects(
                self.spec_graph(),
                p@,
                self.spec_run_root(),
                sol,
            )),
    ;
}

/// A search strategy that consults edge weights; the operations and their
/// meaning are those of [`GraphSearcher`].
pub trait WeightedGraphSearcher<G: WeightedGraph>: Sized {
    /// The searcher's internal bookkeeping is consistent.
    spec fn wf(&self) -> bool;

    /// The graph of the most recent tracked run.
    spec fn spec_graph(&self) -> G;

    /// The root of the most recent tracked run.
    spec fn spec_run_root(&self) -> G::Node;

    /// The nodes marked visited by the most recent tracked run.
    spec fn spec_visited(&self) -> Set<G::Node>;

    /// The goal the most recent tracked run found, if any.
    spec fn spec_solution(&self) -> Option<G::Node>;

    /// Run the search, keeping bookkeeping for later queries; see
    /// [`GraphSearcher::search_tracked`]. No-solution here means that every
    /// walk from the root to a goal costs at least the largest representable
    /// cost: on graphs whose costs stay below that bound, no goal at all is
    /// reachable.
    fn search_tracked(&mut self, graph: &G, root: G::Node) -> (r: Option<G::Node>)
        requires
            old(self).wf(),
        ensures
            final(self).wf(),
            final(self).spec_graph() == *graph,
            final(self).spec_run_root() == root,
            final(self).spec_solution() == r,
            r matches Some(n) ==> graph.spec_is_goal(n) && reachable(*graph, root, n),
            r is None ==> forall|p: Seq<G::Node>, m: G::Node|
                #![trigger connects(*graph, p, root, m)]
                connects(*graph, p, root, m) && graph.spec_is_goal(m) ==> walk_cost(*graph, p)
                    >= i64::MAX,
            final(self).spec_visited().contains(root),
            final(self).spec_visited().finite(),
            forall|m: G::Node|
                #[trigger] final(self).spec_visited().contains(m) ==> reachable(*graph, root, m),
    ;

    /// Run the search without bookkeeping; see [`GraphSearcher::search`] and
    /// the no-solution reading of
    /// [`WeightedGraphSearcher::search_tracked`].
    fn search(graph: &G, root: G::Node) -> (r: Option<G::Node>)
        ensures
            r matches Some(n) ==> graph.spec_is_goal(n) && reachable(*graph, root, n),
            r is None ==> forall|p: Seq<G::Node>, m: G::Node|
                #![trigger connects(*graph, p, root, m)]
                connects(*graph, p, root, m) && graph.spec_is_goal(m) ==> walk_cost(*graph, p)
                    >= i64::MAX,
    ;

    /// How many distinct nodes the most recent tracked run visited.
    fn nodes_visited(&self) -> (r: usize)
        requires
            self.wf(),
        ensures
            r == self.spec_visited().len(),
    ;

    /// Whether `node` was visited in the most recent tracked run.
    fn is_visited(&self, node: G::Node) -> (r: bool)
        requires
            self.wf(),
        ensures
            r == self.spec_visited().contains(node),
    ;

    /// The root-to-goal path of the most recent successful tracked run, or
    /// `None` when no tracked run has succeeded since the last reset.
    fn path(&self) -> (r: Option<Vec<G::Node>>)
        requires
            self.wf(),
        ensures
            r is Some <==> self.spec_solution() is Some,
            r matches Some(p) ==> (self.spec_solution() matches Some(sol) && connects(
                self.spec_graph(),
                p@,
                self.spec_run_root(),
                sol,
            )),
    ;
}

} // verus!
