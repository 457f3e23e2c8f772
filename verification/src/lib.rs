//! Lowest common ancestor queries over three structural models: a binary
//! search tree built by repeated insertion, a directed graph with an
//! explicit root, and a directed acyclic graph with no distinguished
//! root. The graph container is a petgraph adjacency structure behind a
//! small trusted interface; the path search, the topological ordering and
//! the ancestor logic on top of it are verified.

pub mod dag;
pub mod graph;
pub mod prefix;
pub mod rooted;
pub mod search;
pub mod topo;
pub mod tree;
