//! Call-graph extraction engine: builds a table of named definitions from
//! parsed source units, discovers which definitions are reachable from
//! configured entry points, merges per-unit results into one sequenced graph,
//! and renders that graph as a deterministic textual diagram.

pub mod ast;
pub mod cargo;
pub mod graph;
pub mod render;
pub mod visitor;
pub mod text;
pub mod utils;
pub mod workspace;
