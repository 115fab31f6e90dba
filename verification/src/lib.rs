//! Hop-distance statistics of an undirected co-occurrence graph.
//!
//! A list of records, each a pair of labels, gives a graph: a node for each
//! label and an edge for each record. A breadth-first scan from every node
//! lists the hop distance of every pair of nodes that a walk joins, and the
//! mean, the maximum, the median and the mode of these distances are the
//! result.
//!
//! - [`record`] splits a line into its two fields, and [`builder`] builds
//!   the graph of a list of lines in a [`store`].
//! - [`hops`] says what a hop distance is, [`scan`] lists the hop distances
//!   from one node, and [`distances`] gathers those from all nodes and their
//!   [`stats`].
//! - [`census`], [`path`], [`order`] and [`laws`] prove what holds of the
//!   result whatever the graph.
//!
//! The graph is a `petgraph` graph. Verus does not look into `petgraph`: the
//! few functions that call it, in [`store`] and [`scan`], state what the call
//! does, and the proofs rest on that.

pub mod builder;
pub mod census;
pub mod distances;
pub mod error;
pub mod hops;
pub mod laws;
pub mod order;
pub mod path;
pub mod record;
pub mod scan;
pub mod stats;
pub mod store;
