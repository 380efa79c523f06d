//! Graph coarsening by heavy-edge matching and contraction, over weighted
//! undirected graphs held in compressed-sparse-row form.
//!
//! - [`matching`]: rounds of randomized blue/red colouring in which blue
//!   nodes propose to their heaviest live neighbour and red nodes accept
//!   their heaviest proposer, then a pass that labels each node with the
//!   smaller index of its pair.
//! - [`coarsen`]: contraction along a matching into the fine-to-coarse
//!   mapping, its inverse, and the coarse graph, with self-loops removed and
//!   parallel edges merged; [`coarsen_kernels`] holds its per-element steps,
//!   [`compaction`] and [`conservation`] the reasons its output is a graph
//!   and keeps the weight.
//! - [`primitives`]: index lists, gather and scatter, prefix sums, run
//!   detection and a stable sort by key.
//! - [`match_state`], [`csr`], [`counts`], [`dispatch`], [`prng`] and
//!   [`graph_loading`]: the packed matching word, the graph model, live
//!   counts, workgroup counts, round seeds, and the text form of a graph.

pub mod coarsen;
pub mod coarsen_kernels;
pub mod compaction;
pub mod conservation;
pub mod counts;
pub mod csr;
pub mod dispatch;
pub mod graph_loading;
pub mod match_state;
pub mod matching;
pub mod primitives;
pub mod prng;
