//! Algorithms over a [`crate::Graph`]: single-target shortest path,
//! minimum spanning tree, and k-hop neighborhood enumeration.
mod dijkstra;
mod kruskal;
mod neighborhood;

pub use dijkstra::dijkstra;
pub use dijkstra::has_weighted_path;
pub use dijkstra::sat_add;
pub use dijkstra::sat_val;
pub use dijkstra::step_weight;
pub use dijkstra::weighted_path;
pub use kruskal::edge_links;
pub use kruskal::find_mst;
pub use kruskal::forest_connects;
pub use kruskal::linked_path;
pub use neighborhood::neighborhood;
