//! A library for laying out directed graphs written in the Graphviz DOT
//! dialect. The crate parses DOT text into an AST, turns the graph into a
//! ranked DAG (nodes assigned to levels, levels kept as ordered rows), and
//! optimizes the rows to reduce edge crossings. Geometry and rendering sit
//! on top of these structures.

pub mod ast;
pub mod base;
pub mod builder;
pub mod color;
pub mod dag;
pub mod lexer;
pub mod lowering;
pub mod optimizer;
pub mod parser;
pub mod placer;
pub mod record;
pub mod scoped_map;
pub mod shapes;
pub mod style;
