//! Call-graph construction from the answers of a code-intelligence server:
//! message framing, request correlation, symbol-outline reconciliation and
//! graph building.

pub mod client;
pub mod cluster;
pub mod config;
pub mod dot;
pub mod edges;
pub mod file_structure;
pub mod generator;
pub mod graph;
pub mod lang;
pub mod lsp_types;
pub mod outline;
pub mod pending;
pub mod text;
pub mod transport;
