//! Shape inference for tensor graphs.
//!
//! A graph is built with facts that may be incomplete; the solver narrows
//! them by the rules of the operators until nothing changes; lowering then
//! turns the graph into one whose facts are all resolved.
//!
//! - `dim`: dimensions that may contain a symbol, and their arithmetic
//! - `fact`: partial and resolved facts, and their unification
//! - `reshape`: the output shape of a reshape
//! - `op`: the reshape operator
//! - `graph`: nodes, outlets and the invariant that no reference dangles
//! - `solver`: rules over a table of facts, passes and their fixpoint
//! - `collect`: the rules and the table of a graph
//! - `lower`: inference and lowering of a graph
//! - `report`: edges of a graph and comparison of outputs

pub mod collect;
pub mod dim;
pub mod error;
pub mod fact;
pub mod graph;
pub mod lower;
pub mod op;
pub mod report;
pub mod reshape;
pub mod solver;
