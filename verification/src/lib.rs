//! A small toolkit of algorithms on undirected graphs: adjacency lists built
//! from edge lists, breadth-first shortest-path trees, depth-first search with
//! timestamps, and connected components by union-find.

pub mod adjacency;
pub mod algorithms;
pub mod components;
pub mod disjoint_set;
pub mod error;
pub mod graph;
pub mod sorted;
