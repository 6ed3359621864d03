//! A toolkit of graph-search strategies over abstract graphs: breadth-first,
//! depth-first and iterative-deepening search, uniform-cost (Dijkstra) search,
//! A* and greedy best-first search. A caller models a problem as a graph by
//! implementing the capability traits in [`graph`], picks an algorithm, and
//! obtains the goal node found, visitation statistics and a reconstructed
//! root-to-goal path.

pub mod astar;
pub mod bestfirst;
pub mod bfs;
pub mod bookkeeping;
pub mod dfs;
pub mod dijkstra;
pub mod examplegraph;
pub mod graph;
pub mod graphsearcher;
pub mod heapelement;
pub mod perft;
