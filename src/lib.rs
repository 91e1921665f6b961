//! An in-memory intermediate representation of digital-circuit netlists:
//! principal inputs and gate instances connected by single-driver nets,
//! with structural queries, graph analyses and rewriting operations.
//!
//! - `circuit`: identifiers, nets, the `Instantiable` capability of
//!   primitives, and circuit objects.
//! - `attribute`: attributes, parameters and attribute filters.
//! - `netlist`: the store, its handles, and insertion, exposure, rewiring,
//!   deletion, replacement, dead-object elimination and verification.
//! - `graph`: the fan-out table, the depth-first walk and combinational depth.
//! - `multigraph`: export as a directed multigraph.
//! - `verilog`: emission as a Verilog module.
//! - `laws`: properties that relate the operations to each other.
//! - `text`: decimal text helpers.

pub mod attribute;
pub mod circuit;
pub mod graph;
pub mod laws;
pub mod multigraph;
pub mod netlist;
pub mod text;
pub mod verilog;
