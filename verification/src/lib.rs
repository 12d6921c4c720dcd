//! Maximum flow on a capacitated directed graph by repeated path augmentation.
//!
//! A [`Graph`] registers named nodes under dense identifiers and keeps, for
//! each node, its outgoing residual edges with their flow and capacity. A
//! breadth-first search finds the path along which the next round sends flow;
//! the rounds end when no path is left that can take any. No edge is ever
//! run backwards: flow that has been sent is not taken back.
//!
//! Contracts are stated over a mathematical model of the graph, the
//! [`network::Network`]: `network` and `push` define it and the quantities on
//! it, `search` and `reach` the search and what it finds, `flow` the rounds,
//! and `laws` and `cut` what holds of the whole. `text`, `render` and `sample`
//! read, write and make up edge lists, and `readback` shows that what is
//! written reads back.

pub mod cut;
pub mod flow;
pub mod graph;
pub mod laws;
pub mod network;
pub mod push;
pub mod reach;
pub mod readback;
pub mod render;
pub mod sample;
pub mod search;
pub mod sums;
pub mod text;

pub use crate::graph::{Graph, Node};
