//! Batch query plan fragmenting: cutting an operator tree into a graph of
//! execution stages at its exchange operators, together with the block
//! addressing used by the object storage layer.
//!
//! A plan ([`plan`]) goes into a [`fragmenter::BatchPlanFragmenter`], and a
//! [`graph::Query`] comes out: a graph of stages ([`stage`]), each with the
//! operators that it runs ([`execution`]). What the graph of a plan is, is
//! said in [`model`]; what holds of every such graph, in [`laws`]; in which
//! order its stages can be scheduled, in [`walk`].

pub mod error;
pub mod execution;
pub mod fragmenter;
pub mod graph;
pub mod laws;
pub mod model;
pub mod object;
pub mod order;
pub mod plan;
pub mod query_id;
pub mod stage;
pub mod walk;
pub mod worker;
