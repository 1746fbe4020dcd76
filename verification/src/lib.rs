pub mod text;
pub mod store;
pub mod compressor;
pub mod graph;
pub mod config;
pub mod syntax;
pub mod pattern;
pub mod parser;
pub mod mcp;
pub mod overview;
pub mod tools;
pub mod search;
pub mod indexer;
pub mod watcher;
pub mod cli;
