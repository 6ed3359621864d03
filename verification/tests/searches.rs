use graphsearch::astar::AStar;
use graphsearch::bestfirst::BestFirstSearch;
use graphsearch::bfs::BFS;
use graphsearch::dfs::DFS;
use graphsearch::dfs::IterDeepening;
use graphsearch::dijkstra::Dijkstra;
use graphsearch::examplegraph::get_example_graph;
use graphsearch::examplegraph::ExampleGraph;
use graphsearch::examplegraph::ExampleNode;
use graphsearch::graph::Graph;
use graphsearch::graphsearcher::GraphSearcher;
use graphsearch::graphsearcher::WeightedGraphSearcher;
use graphsearch::perft::perft;

#[test]
fn astar_basic() {
    let graph = get_example_graph();
    let mut searcher = AStar::new();
    let found = searcher.search_tracked(&graph, ExampleGraph::root());
    assert!(found.is_some());
    assert!(graph.is_goal(found.unwrap()));
    assert_eq!(
        searcher.path().unwrap(),
        &[
            ExampleNode::new(8),
            ExampleNode::new(3),
            ExampleNode::new(6),
            ExampleNode::new(7)
        ]
    );
}

#[test]
fn bestfirst_basic() {
    let graph = get_example_graph();
    let mut searcher = BestFirstSearch::new();
    let solution = searcher.search_tracked(&graph, ExampleGraph::root());
    assert!(graph.is_goal(solution.unwrap()));
}

#[test]
fn check_bfs() {
    let graph = get_example_graph();
    let found = BFS::search(&graph, ExampleGraph::root());
    assert!(found.is_some());
    assert!(graph.is_goal(found.unwrap()));
}

#[test]
fn check_dfs() {
    let graph = get_example_graph();
    let mut searcher = DFS::new();
    let found = searcher.search_tracked(&graph, ExampleGraph::root());
    assert!(found.is_some());
    assert!(graph.is_goal(found.unwrap()));
    assert_eq!(
        searcher.path().unwrap(),
        &[
            ExampleNode::new(8),
            ExampleNode::new(3),
            ExampleNode::new(6),
            ExampleNode::new(7)
        ]
    );
}

#[test]
fn check_iterative_deepening_dfs() {
    let graph = get_example_graph();
    let mut searcher = IterDeepening::new();
    let found = searcher.search_tracked(&graph, ExampleGraph::root());
    assert!(found.is_some());
    assert!(graph.is_goal(found.unwrap()));
    assert_eq!(
        searcher.path().unwrap(),
        &[
            ExampleNode::new(8),
            ExampleNode::new(3),
            ExampleNode::new(6),
            ExampleNode::new(7)
        ]
    );
}

#[test]
fn dijkstra_basic() {
    let graph = get_example_graph();
    let mut searcher = Dijkstra::new();
    let found = searcher.search_tracked(&graph, ExampleGraph::root());
    assert!(found.is_some());
    assert!(graph.is_goal(found.unwrap()));
    assert_eq!(
        searcher.path().unwrap(),
        &[
            ExampleNode::new(8),
            ExampleNode::new(3),
            ExampleNode::new(6),
            ExampleNode::new(7)
        ]
    );
}

#[test]
fn depth1() {
    let graph = get_example_graph();
    let node_count = perft(&graph, ExampleGraph::root(), 1);
    assert_eq!(node_count, 2);
}
