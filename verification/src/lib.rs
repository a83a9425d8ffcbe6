//! An in-memory directed-graph library: a node/edge container parameterized
//! over arbitrary payload types, plus three classical algorithms built on top
//! of it — single-target shortest path (Dijkstra), minimum spanning tree
//! (Kruskal over a disjoint-set union), and bounded-radius neighborhood
//! enumeration (k-hop breadth-first expansion).
//!
//! Nodes are identified by dense, zero-based indices into the graph's node
//! sequence; adjacency is a per-node ordered list of `(edge payload, target
//! index)` pairs. Indices are not stable across removals: removing node `i`
//! shifts every index greater than `i` down by one.
use vstd::prelude::*;

pub mod algo;
mod graph;

pub use graph::Graph;

verus! {

/// Graph operation error.
#[derive(Clone, Copy, Debug, PartialEq, Eq, Structural)]
pub enum Error {
    /// There is no node with the given id in the graph.
    NoSuchNode,
    /// There is no such edge in the graph.
    NoSuchEdge,
    /// The shortest-path search exhausted its frontier without
    /// reaching the target.
    NoSuchPath,
    /// Could not add an edge to the graph.
    CannotAddEdge,
    /// A node with this payload already exists.
    NodeAlreadyExists,
    /// An edge between these two nodes already exists.
    EdgeAlreadyExists,
    /// The operation cannot be performed as it would
    /// create a cycle in the graph.
    CycleError,
}

/// Capabilities a node or edge payload must offer: equality comparison and
/// duplication, both agreeing with mathematical equality on the type. The
/// graph compares payloads by value to support lookup-by-value, and hands out
/// copies of stored payloads rather than references.
pub trait Payload: Sized {
    /// Value equality, agreeing with mathematical equality.
    fn eq_payload(&self, other: &Self) -> (r: bool)
        ensures
            r == (*self == *other),
    ;

    /// A copy of the payload, equal to the original.
    fn duplicate(&self) -> (r: Self)
        ensures
            r == *self,
    ;
}

impl Payload for usize {
    fn eq_payload(&self, other: &Self) -> (r: bool)
        ensures
            r == (*self == *other),
    {
        *self == *other
    }

    fn duplicate(&self) -> (r: Self)
        ensures
            r == *self,
    {
        *self
    }
}

impl Payload for u64 {
    fn eq_payload(&self, other: &Self) -> (r: bool)
        ensures
            r == (*self == *other),
    {
        *self == *other
    }

    fn duplicate(&self) -> (r: Self)
        ensures
            r == *self,
    {
        *self
    }
}

} // verus!
