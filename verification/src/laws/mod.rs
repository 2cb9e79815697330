//! What the operations promise, told by their inputs and results: texts are taken
//! apart and put together, rows and names are compared as they stand, and syntax
//! trees are read by the depths of their nodes.
pub mod chunks;
pub mod commands;
pub mod embedding;
pub mod fusion;
pub mod graph;
pub mod numbers;
pub mod parsing;
pub mod retrieval;
pub mod sorting;
pub mod table;
pub mod text;
