//! An affine loop nest is modelled as a graph-shaped intermediate
//! representation: an arena-owned table of nodes whose successor links are
//! table indices, so that a node's identity is its index and cycles (loop
//! back-edges) can be built by patching links after allocation.
//!
//! On top of that graph, a simulation context assigns a dense index to every
//! memory-access node reachable from a root and then, fed an ordered stream
//! of access events by an external driver, collects per-node histograms of
//! reuse intervals: the logical-time gaps between successive touches of the
//! same memory block.

pub mod graph;
pub mod simulator;

