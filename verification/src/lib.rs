//! Astral: semantic chunks, hybrid retrieval and code topology for Solidity.

pub mod chunker;
pub mod columns;
pub mod command;
pub mod embedding;
pub mod export;
pub mod float;
pub mod laws;
pub mod ordered;
pub mod parser;
pub mod retrieval;
pub mod storage;
pub mod syntax;
pub mod text;
pub mod viewer;
pub mod visualizer;
