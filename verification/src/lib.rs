//! Outline notes to a page graph: a parser for outline-style note files, the
//! graph of the pages they describe, and structural queries over that graph.

pub mod analytics;
pub mod builder;
pub mod config;
pub mod converter;
pub mod cycles;
pub mod dfs;
pub mod digraph;
pub mod errors;
pub mod export;
pub mod graph;
pub mod optimizer;
pub mod outline;
pub mod parser;
pub mod pattern;
pub mod properties;
pub mod text;
pub mod tree;
pub mod walks;
