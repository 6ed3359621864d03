use graphsearch::astar::AStar;
use graphsearch::bestfirst::BestFirstSearch;
use graphsearch::bfs::BFS;
use graphsearch::dfs::DFS;
use graphsearch::dijkstra::Dijkstra;
use graphsearch::examplegraph::get_example_graph;
use graphsearch::examplegraph::ExampleEdge;
use graphsearch::examplegraph::ExampleGraph;
use graphsearch::examplegraph::ExampleNode;
use graphsearch::graph::path_cost;
use graphsearch::graph::Graph;
use graphsearch::graph::HeuristicGraph;
use graphsearch::graph::WeightedGraph;
use graphsearch::graphsearcher::GraphSearcher;
use graphsearch::graphsearcher::WeightedGraphSearcher;
use graphsearch::perft::perft;

fn no_goal_graph() -> ExampleGraph {
    let mut graph = ExampleGraph::new();
    graph.add(ExampleNode::new(8));
    graph.add(ExampleNode::new(3));
    graph.add(ExampleNode::new(10));
    graph.add_edge(ExampleEdge::new(8, 3));
    graph.add_edge(ExampleEdge::new(8, 10));
    graph.set_goal(ExampleNode::new(99));
    graph
}

#[test]
fn bfs_returns_minimum_distance_goal() {
    // A second, longer route to the goal: BFS must still report the
    // three-edge path, never the four-edge one.
    let mut graph = get_example_graph();
    graph.add_edge(ExampleEdge::new(14, 7));
    let mut searcher = BFS::new();
    let found = searcher.search_tracked(&graph, ExampleGraph::root());
    assert_eq!(found, Some(ExampleNode::new(7)));
    assert_eq!(searcher.path().unwrap().len(), 4);
}

#[test]
fn dijkstra_and_astar_report_optimal_cost() {
    let graph = get_example_graph();
    let mut dijkstra = Dijkstra::new();
    dijkstra.search_tracked(&graph, ExampleGraph::root());
    let dijkstra_path = dijkstra.path().unwrap();
    assert_eq!(path_cost(&graph, &dijkstra_path), 3);
    let mut astar = AStar::new();
    astar.search_tracked(&graph, ExampleGraph::root());
    let astar_path = astar.path().unwrap();
    assert_eq!(path_cost(&graph, &astar_path), 3);
}

#[test]
fn astar_agrees_with_dijkstra() {
    // The example graph's heuristic is the same at every node, which keeps
    // A*'s exploration order identical to Dijkstra's.
    let graph = get_example_graph();
    let mut dijkstra = Dijkstra::new();
    let dijkstra_goal = dijkstra.search_tracked(&graph, ExampleGraph::root());
    let mut astar = AStar::new();
    let astar_goal = astar.search_tracked(&graph, ExampleGraph::root());
    assert_eq!(dijkstra_goal, astar_goal);
    assert_eq!(
        path_cost(&graph, &dijkstra.path().unwrap()),
        path_cost(&graph, &astar.path().unwrap())
    );
}

#[test]
fn paths_run_from_root_to_goal_along_edges() {
    let graph = get_example_graph();
    let root = ExampleGraph::root();
    let mut bfs = BFS::new();
    let bfs_goal = bfs.search_tracked(&graph, root).unwrap();
    let mut dijkstra = Dijkstra::new();
    let dijkstra_goal = dijkstra.search_tracked(&graph, root).unwrap();
    let mut bestfirst = BestFirstSearch::new();
    let bestfirst_goal = bestfirst.search_tracked(&graph, root).unwrap();
    for (path, goal) in [
        (bfs.path().unwrap(), bfs_goal),
        (dijkstra.path().unwrap(), dijkstra_goal),
        (bestfirst.path().unwrap(), bestfirst_goal),
    ] {
        assert_eq!(path[0], root);
        assert_eq!(*path.last().unwrap(), goal);
        for pair in path.windows(2) {
            assert!(graph.children(pair[0]).contains(&pair[1]));
        }
    }
}

#[test]
fn visited_counts_stay_within_the_graph() {
    // Nine nodes are reachable from the root, so no distinct-node count may
    // exceed nine.
    let graph = get_example_graph();
    let root = ExampleGraph::root();
    let mut bfs = BFS::new();
    bfs.search_tracked(&graph, root);
    assert!(bfs.nodes_visited() <= 9);
    let mut dfs = DFS::new();
    dfs.search_tracked(&graph, root);
    assert!(dfs.nodes_visited() <= 9);
    let mut dijkstra = Dijkstra::new();
    dijkstra.search_tracked(&graph, root);
    assert!(dijkstra.nodes_visited() <= 9);
    let mut astar = AStar::new();
    astar.search_tracked(&graph, root);
    assert!(astar.nodes_visited() <= 9);
    let mut bestfirst = BestFirstSearch::new();
    bestfirst.search_tracked(&graph, root);
    assert!(bestfirst.nodes_visited() <= 9);
}

#[test]
fn iterative_deepening_counts_entries_across_passes() {
    // The deepening counter accumulates every node entry of every pass, so
    // it exceeds the number of distinct nodes in the graph.
    let graph = get_example_graph();
    let mut searcher = graphsearch::dfs::IterDeepening::new();
    searcher.search_tracked(&graph, ExampleGraph::root());
    assert_eq!(searcher.nodes_visited(), 25);
    assert!(searcher.is_visited(ExampleNode::new(13)));
    assert!(!searcher.is_visited(ExampleNode::new(99)));
}

#[test]
fn rerunning_a_searcher_matches_a_fresh_one() {
    let graph = get_example_graph();
    let root = ExampleGraph::root();
    let mut reused = BFS::new();
    reused.search_tracked(&graph, root);
    let first_goal = reused.search_tracked(&graph, root);
    let mut fresh = BFS::new();
    let fresh_goal = fresh.search_tracked(&graph, root);
    assert_eq!(first_goal, fresh_goal);
    assert_eq!(reused.nodes_visited(), fresh.nodes_visited());
    assert_eq!(reused.max_frontier(), fresh.max_frontier());
    assert_eq!(reused.path(), fresh.path());
    let mut reused_dijkstra = Dijkstra::new();
    reused_dijkstra.search_tracked(&graph, root);
    let second = reused_dijkstra.search_tracked(&graph, root);
    let mut fresh_dijkstra = Dijkstra::new();
    assert_eq!(second, fresh_dijkstra.search_tracked(&graph, root));
    assert_eq!(reused_dijkstra.path(), fresh_dijkstra.path());
}

#[test]
fn unreachable_goal_yields_no_solution() {
    let graph = no_goal_graph();
    let root = ExampleGraph::root();
    assert_eq!(BFS::search(&graph, root), None);
    assert_eq!(DFS::search(&graph, root), None);
    assert_eq!(Dijkstra::search(&graph, root), None);
    assert_eq!(AStar::search(&graph, root), None);
    assert_eq!(BestFirstSearch::search(&graph, root), None);
    let mut bfs = BFS::new();
    assert_eq!(bfs.search_tracked(&graph, root), None);
    assert_eq!(bfs.path(), None);
    assert!(bfs.is_visited(ExampleNode::new(10)));
    assert!(!bfs.is_visited(ExampleNode::new(99)));
    assert_eq!(bfs.nodes_visited(), 3);
}

#[test]
fn path_is_absent_before_any_successful_run() {
    let bfs: BFS<ExampleGraph> = BFS::new();
    assert_eq!(bfs.path(), None);
    let dfs: DFS<ExampleGraph> = DFS::new();
    assert_eq!(dfs.path(), None);
    let dijkstra: Dijkstra<ExampleGraph> = Dijkstra::new();
    assert_eq!(dijkstra.path(), None);
    assert_eq!(dijkstra.nodes_visited(), 0);
}

#[test]
fn root_one_level_expansion_has_two_children() {
    let graph = get_example_graph();
    let children = graph.children(ExampleGraph::root());
    assert_eq!(children.len(), 2);
    assert!(children.contains(&ExampleNode::new(3)));
    assert!(children.contains(&ExampleNode::new(10)));
    assert_eq!(perft(&graph, ExampleGraph::root(), 1), 2);
}

#[test]
fn dfs_path_has_no_repeated_nodes() {
    let graph = get_example_graph();
    let mut searcher = DFS::new();
    searcher.search_tracked(&graph, ExampleGraph::root());
    let path = searcher.path().unwrap();
    for i in 0..path.len() {
        for j in (i + 1)..path.len() {
            assert_ne!(path[i], path[j]);
        }
    }
}

#[test]
fn goal_at_root_is_found_at_extraction() {
    // BFS, DFS, Dijkstra and A* all test the root; greedy best-first only
    // tests discovered children, so a goal root goes unnoticed by design.
    let mut graph = get_example_graph();
    graph.set_goal(ExampleNode::new(8));
    let root = ExampleGraph::root();
    assert_eq!(BFS::search(&graph, root), Some(ExampleNode::new(8)));
    assert_eq!(DFS::search(&graph, root), Some(ExampleNode::new(8)));
    assert_eq!(Dijkstra::search(&graph, root), Some(ExampleNode::new(8)));
    assert_eq!(AStar::search(&graph, root), Some(ExampleNode::new(8)));
    assert_eq!(BestFirstSearch::search(&graph, root), None);
}

#[test]
fn max_frontier_reports_peak_size() {
    let graph = get_example_graph();
    let root = ExampleGraph::root();
    let mut bfs = BFS::new();
    bfs.search_tracked(&graph, root);
    assert!(bfs.max_frontier() >= 1);
    let mut dijkstra = Dijkstra::new();
    dijkstra.search_tracked(&graph, root);
    assert!(dijkstra.max_frontier() >= 1);
    let mut astar = AStar::new();
    astar.search_tracked(&graph, root);
    assert!(astar.max_frontier() >= 1);
    let mut bestfirst = BestFirstSearch::new();
    bestfirst.search_tracked(&graph, root);
    assert!(bestfirst.max_frontier() >= 1);
}

#[test]
fn weighted_path_cost_sums_edges() {
    let graph = get_example_graph();
    let nodes = vec![
        ExampleNode::new(8),
        ExampleNode::new(3),
        ExampleNode::new(6),
        ExampleNode::new(7),
    ];
    assert_eq!(path_cost(&graph, &nodes), 3);
    assert_eq!(path_cost(&graph, &vec![ExampleNode::new(8)]), 0);
    assert_eq!(path_cost(&graph, &Vec::new()), 0);
    assert_eq!(graph.edge_weight(ExampleNode::new(8), ExampleNode::new(3)), 1);
    assert_eq!(graph.heuristic(ExampleNode::new(8)), 1);
}
