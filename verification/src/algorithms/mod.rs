//! Searches over a graph.

pub mod bfs;
pub mod bfs_laws;
pub mod dfs;
pub mod dfs_laws;

pub use bfs::bfs;
pub use bfs::BfsTree;
pub use dfs::dfs;
pub use dfs::DfsNode;
pub use dfs::DfsTree;
