//! Exploration of a hyperlink graph: link extraction from raw page content,
//! a depth-bounded breadth-first crawl, a two-file text format for the
//! crawled graph, and shortest-path queries over a loaded graph.

pub mod args;
pub mod crawl;
pub mod extract;
pub mod graph;
mod search;
pub mod store;
pub mod text;
