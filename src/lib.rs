//! Grounding of first-order implication rules into a target-rooted
//! proposition graph, the orders and enumerations that belief propagation
//! walks it by, and the naming and book-keeping of the factor model's weights.
//!
//! - `objects`, `creators`: the logical schema and its canonical keys.
//! - `ops`, `grounding`, `index`: backward grounding of rules against a proposition.
//! - `graph`, `traversal`: the proposition graph, its traversal orders and the
//!   parent assignments of each factor table.
//! - `weights`, `batch`, `belief`: feature names, the delta overlay's counts,
//!   weight-file checks, training batches and evidence lookups.
//! - `schema`, `setup`: storage labels and run configuration.
pub mod batch;
pub mod belief;
pub mod creators;
pub mod graph;
pub mod grounding;
pub mod index;
pub mod objects;
pub mod ops;
pub mod schema;
pub mod setup;
pub mod text;
pub mod traversal;
pub mod weights;
