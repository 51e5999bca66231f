//! A small generic labeled-graph container: a dense adjacency matrix mapping
//! pairs of user-defined labels to optional edge values, with label-keyed
//! lookup and a single-source shortest-path query.

pub mod errors;
pub mod labels;
pub mod row;
pub mod graph;
pub mod dijkstra;

pub use errors::GraphError;
pub use graph::Graph;
pub use labels::get_index;
pub use row::GraphRow;
pub use row::none_vec;
