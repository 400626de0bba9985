use vstd::prelude::*;

verus! {

/// Why an operation on a graph, a traversal or the codec was refused.
#[derive(Clone, Copy, Debug, PartialEq, Eq, Structural)]
pub enum GraphError {
    /// A node with this identifier is already in the graph.
    DuplicateId,
    /// An identifier names no node of the graph.
    NodeNotFound,
    /// An edge would lead from a node to itself.
    SelfLoop,
    /// The edge is already there.
    DuplicateEdge,
    /// The edge or node would close a cycle of two nodes in a graph that forbids them.
    CycleForbidden,
    /// The edge to remove is not there.
    EdgeNotFound,
    /// The identifier given as root names no node of the graph.
    InvalidRoot,
    /// A root that has been set cannot be unset.
    RootAlreadySet,
    /// A traversal needs a root and none is set.
    NoRoot,
    /// A line of serialized text does not have the expected shape.
    MalformedInput,
}

} // verus!
