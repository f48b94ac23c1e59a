pub mod node_iter;
pub mod edge_iter;
