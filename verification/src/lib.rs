//! A small directed-graph library.
//!
//! A [`graph::Graph`] is a dense adjacency list over the nodes `0..size`.
//! Edges are added one at a time or in bulk, a graph can be read from
//! delimiter-separated text, and hop counts from one node to every node it
//! reaches are found by breadth-first search.
//!
//! Every executable function carries a contract over the graph's view, the
//! sequence of successor lists, and is proved against it.

pub mod delimiter;
pub mod edge_list;
pub mod error;
pub mod graph;
pub mod shortest_path;
