//! Graph algorithms: minimum spanning cost, stick merging, strongly
//! connected components, and topological ordering of a rooted chart.

pub mod connecting_cities_with_minimum_cost;
pub mod kosaraju;
pub mod minimum_cost_to_connect_sticks;
pub mod rooted_topological_sort;
