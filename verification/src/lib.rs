//! Minimum-cost paths in directed, non-negatively-weighted graphs.
//!
//! The graph is a dense-integer-indexed adjacency list.  Two search
//! strategies are provided and verified against the same specification of
//! shortest-walk cost: a classic label-setting search ([`dijkstra::dijkstra`])
//! and a meeting-in-the-middle bidirectional variant
//! ([`dijkstra::dijkstra_bidir`]) that runs forward and backward frontier
//! expansions in lockstep and stops as soon as optimality is provable.
//!
//! Two generic containers, a ring-buffer FIFO queue ([`fifo`]) and a
//! freelist-based, index-addressed doubly linked list ([`linked_list`]),
//! live beside the search engine but are not exercised by it.

pub mod dijkstra;
pub mod graph;
pub mod fifo;
pub mod frontier;
pub mod linked_list;
pub mod walks;
