use vstd::prelude::*;
use vstd::seq_lib::*;
use crate::error::GraphError;
use crate::iterator::{lemma_step, start_at, step, GraphIter, IterView, Order};
use crate::node::{Node, NodeView};

verus! {

/// Which cycles a graph refuses when nodes and edges are added.
#[derive(Clone, Copy, Debug, PartialEq, Eq, Structural)]
pub enum CyclePolicy {
    /// Any edge between two distinct nodes may be added once. Traversals stay
    /// finite because they remember what they have visited.
    Unrestricted,
    /// An edge is refused while the opposite edge exists, and a node is
    /// refused if its initial edges would close a cycle of two nodes.
    NoTwoCycles,
}

/// The predicate that keeps every edge target but `target`.
pub open spec fn other_than(target: usize) -> spec_fn(usize) -> bool {
    |t: usize| t != target
}

/// A node's content with the payload forgotten.
pub open spec fn bare<T>(node: NodeView<T>) -> NodeView<()> {
    NodeView { index: node.index, value: (), edges: node.edges }
}

/// The mathematical content of a graph: its nodes by identifier, its root and
/// its cycle policy.
pub struct GraphView<T> {
    pub nodes: Map<usize, NodeView<T>>,
    pub root: Option<usize>,
    pub policy: CyclePolicy,
}

impl<T> GraphView<T> {
    /// Finitely many nodes, each stored under its own identifier.
    pub open spec fn wf(self) -> bool {
        &&& self.nodes.dom().finite()
        &&& forall|id: usize| #[trigger] self.nodes.contains_key(id) ==> self.nodes[id].index == id
    }

    /// A node with this identifier is in the graph.
    pub open spec fn contains(self, id: usize) -> bool {
        self.nodes.contains_key(id)
    }

    /// Node `from` is present and lists `to` among its edge targets.
    pub open spec fn has_edge(self, from: usize, to: usize) -> bool {
        self.nodes.contains_key(from) && self.nodes[from].edges.contains(to)
    }

    /// The topology alone: for every node, the targets of its edges in order.
    pub open spec fn adjacency(self) -> Map<usize, Seq<usize>> {
        self.nodes.map_values(|node: NodeView<T>| node.edges)
    }

    /// Every edge leads to another node of the graph and is listed once:
    /// the edges are such as `add_edge` alone would have let in.
    pub open spec fn edges_sound(self) -> bool {
        forall|id: usize| #[trigger]
            self.nodes.contains_key(id) ==> {
                &&& self.nodes[id].edges.no_duplicates()
                &&& !self.nodes[id].edges.contains(id)
                &&& forall|i: int|
                    0 <= i < self.nodes[id].edges.len() ==> self.nodes.contains_key(
                        #[trigger] self.nodes[id].edges[i],
                    )
            }
    }

    /// The same graph with every payload forgotten.
    pub open spec fn topology(self) -> GraphView<()> {
        GraphView {
            nodes: self.nodes.map_values(|node: NodeView<T>| bare(node)),
            root: self.root,
            policy: self.policy,
        }
    }

    /// Forgetting the payloads changes neither which nodes there are nor
    /// where their edges lead.
    pub proof fn lemma_topology(self)
        ensures
            self.topology().adjacency() == self.adjacency(),
            self.wf() ==> self.topology().wf(),
            forall|id: usize| self.topology().contains(id) == self.contains(id),
            forall|from: usize, to: usize|
                self.topology().has_edge(from, to) == self.has_edge(from, to),
    {
        assert(self.topology().adjacency() =~= self.adjacency());
        assert(self.topology().nodes.dom() =~= self.nodes.dom());
    }

    /// Adding a node and forgetting the payloads can be done in either order.
    pub proof fn lemma_topology_add_node(self, node: NodeView<T>)
        ensures
            self.topology().add_node_outcome(bare(node)) == self.add_node_outcome(node),
            self.with_node(node).topology() == self.topology().with_node(bare(node)),
    {
        self.lemma_topology();
        if self.closes_two_cycle(node) {
            let id = choose|id: usize| #[trigger]
                self.has_edge(id, node.index) && node.edges.contains(id);
            assert(self.topology().has_edge(id, node.index));
        }
        if self.topology().closes_two_cycle(bare(node)) {
            let id = choose|id: usize| #[trigger]
                self.topology().has_edge(id, node.index) && node.edges.contains(id);
            assert(self.has_edge(id, node.index));
        }
        assert(self.with_node(node).topology().nodes =~= self.topology().with_node(
            bare(node),
        ).nodes);
    }

    /// Adding an edge and forgetting the payloads can be done in either order.
    pub proof fn lemma_topology_add_edge(self, from: usize, to: usize)
        requires
            self.contains(from),
        ensures
            self.topology().add_edge_outcome(from, to) == self.add_edge_outcome(from, to),
            self.with_edge(from, to).topology() == self.topology().with_edge(from, to),
    {
        self.lemma_topology();
        assert(self.with_edge(from, to).topology().nodes =~= self.topology().with_edge(
            from,
            to,
        ).nodes);
    }

    /// Some node of the graph points to `node` and is pointed to by it.
    pub open spec fn closes_two_cycle(self, node: NodeView<T>) -> bool {
        exists|id: usize| #[trigger] self.has_edge(id, node.index) && node.edges.contains(id)
    }

    /// Whether `node` is let in: not if its identifier is taken, and not if
    /// the graph forbids cycles of two nodes and the node would close one.
    pub open spec fn add_node_outcome(self, node: NodeView<T>) -> Result<(), GraphError> {
        if self.contains(node.index) {
            Err(GraphError::DuplicateId)
        } else if self.policy == CyclePolicy::NoTwoCycles && self.closes_two_cycle(node) {
            Err(GraphError::CycleForbidden)
        } else {
            Ok(())
        }
    }

    /// The graph with `node` stored under its identifier.
    pub open spec fn with_node(self, node: NodeView<T>) -> Self {
        GraphView { nodes: self.nodes.insert(node.index, node), ..self }
    }

    /// Whether node `id` can be removed: only if it is there.
    pub open spec fn remove_node_outcome(self, id: usize) -> Result<(), GraphError> {
        if self.contains(id) {
            Ok(())
        } else {
            Err(GraphError::NodeNotFound)
        }
    }

    /// The graph without node `id` and without any edge that led to it.
    pub open spec fn without_node(self, id: usize) -> Self {
        GraphView {
            nodes: self.nodes.remove(id).map_values(
                |node: NodeView<T>| NodeView { edges: node.edges.filter(other_than(id)), ..node },
            ),
            ..self
        }
    }

    /// Whether the root can be set as asked: an identifier must name a node,
    /// and a root that is set cannot be taken away. Asking for no root
    /// while none is set is accepted and changes nothing.
    pub open spec fn set_root_outcome(self, root: Option<usize>) -> Result<(), GraphError> {
        match root {
            Some(id) => if self.contains(id) {
                Ok(())
            } else {
                Err(GraphError::InvalidRoot)
            },
            None => if self.root is Some {
                Err(GraphError::RootAlreadySet)
            } else {
                Ok(())
            },
        }
    }

    /// Whether an edge from `from` to `to` is let in. Both nodes must be
    /// there; then they must differ; then the edge must be new; then, where
    /// cycles of two nodes are forbidden, the opposite edge must be absent.
    pub open spec fn add_edge_outcome(self, from: usize, to: usize) -> Result<(), GraphError> {
        if !self.contains(from) || !self.contains(to) {
            Err(GraphError::NodeNotFound)
        } else if from == to {
            Err(GraphError::SelfLoop)
        } else if self.has_edge(from, to) {
            Err(GraphError::DuplicateEdge)
        } else if self.policy == CyclePolicy::NoTwoCycles && self.has_edge(to, from) {
            Err(GraphError::CycleForbidden)
        } else {
            Ok(())
        }
    }

    /// The graph with `to` appended to the edge targets of `from`.
    pub open spec fn with_edge(self, from: usize, to: usize) -> Self {
        GraphView {
            nodes: self.nodes.insert(
                from,
                NodeView { edges: self.nodes[from].edges.push(to), ..self.nodes[from] },
            ),
            ..self
        }
    }

    /// Whether the edge from `from` to `to` can be removed: both nodes must
    /// be there, and then the edge.
    pub open spec fn remove_edge_outcome(self, from: usize, to: usize) -> Result<(), GraphError> {
        if !self.contains(from) || !self.contains(to) {
            Err(GraphError::NodeNotFound)
        } else if !self.has_edge(from, to) {
            Err(GraphError::EdgeNotFound)
        } else {
            Ok(())
        }
    }

    /// The graph with every occurrence of `to` taken out of the edge targets
    /// of `from`.
    pub open spec fn without_edge(self, from: usize, to: usize) -> Self {
        GraphView {
            nodes: self.nodes.insert(
                from,
                NodeView {
                    edges: self.nodes[from].edges.filter(other_than(to)),
                    ..self.nodes[from]
                },
            ),
            ..self
        }
    }
}

/// A node whose identifier is new is accepted and is in the graph
/// afterwards, and a second node with that identifier is then refused as a
/// duplicate. Where the graph forbids cycles of two nodes, this holds of
/// nodes whose edges close none.
pub proof fn lemma_add_fresh_node<T>(graph: GraphView<T>, node: NodeView<T>, again: NodeView<T>)
    requires
        !graph.contains(node.index),
        graph.policy == CyclePolicy::NoTwoCycles ==> !graph.closes_two_cycle(node),
        again.index == node.index,
    ensures
        graph.add_node_outcome(node) is Ok,
        graph.with_node(node).contains(node.index),
        graph.with_node(node).nodes[node.index] == node,
        graph.with_node(node).add_node_outcome(again) == Err::<(), GraphError>(
            GraphError::DuplicateId,
        ),
{
}

/// An edge from a node of the graph to itself is refused as a loop.
pub proof fn lemma_self_loop_refused<T>(graph: GraphView<T>, id: usize)
    requires
        graph.contains(id),
    ensures
        graph.add_edge_outcome(id, id) == Err::<(), GraphError>(GraphError::SelfLoop),
{
}

/// Adding the same edge between two distinct nodes of the graph twice in a
/// row is refused the second time as a duplicate: after the first call added
/// the edge, and also after it was refused because the edge was there
/// already. This is stated of first calls that are not refused for closing
/// a cycle of two nodes; after such a call the second is refused for the
/// same reason.
pub proof fn lemma_add_edge_twice<T>(graph: GraphView<T>, from: usize, to: usize)
    requires
        graph.contains(from),
        graph.contains(to),
        from != to,
        graph.add_edge_outcome(from, to) != Err::<(), GraphError>(GraphError::CycleForbidden),
    ensures
        graph.add_edge_outcome(from, to) is Ok ==> graph.with_edge(from, to).add_edge_outcome(
            from,
            to,
        ) == Err::<(), GraphError>(GraphError::DuplicateEdge),
        graph.add_edge_outcome(from, to) is Err ==> graph.add_edge_outcome(from, to) == Err::<
            (),
            GraphError,
        >(GraphError::DuplicateEdge),
{
    let targets = graph.nodes[from].edges;
    assert(targets.push(to)[targets.len() as int] == to);
}

/// Once a node is removed, it is not in the graph, no edge leads to it, and
/// no step of any traversal over what is left produces it.
pub proof fn lemma_removed_node_is_gone<T>(graph: GraphView<T>, id: usize)
    requires
        graph.contains(id),
    ensures
        graph.remove_node_outcome(id) is Ok,
        !graph.without_node(id).contains(id),
        forall|from: usize| !graph.without_node(id).has_edge(from, id),
        forall|other: usize|
            other != id ==> graph.without_node(id).contains(other) == graph.contains(other),
        forall|order: Order, state: IterView| #[trigger]
            step(order, graph.without_node(id).adjacency(), state).1 != Some(id),
{
    assert forall|order: Order, state: IterView| #[trigger]
        step(order, graph.without_node(id).adjacency(), state).1 != Some(id) by {
        lemma_step(order, graph.without_node(id).adjacency(), state);
    }
    assert forall|from: usize| !graph.without_node(id).has_edge(from, id) by {
        if graph.without_node(id).contains(from) {
            let targets = graph.nodes[from].edges;
            let kept = targets.filter(other_than(id));
            assert(graph.without_node(id).nodes[from].edges == kept);
            if kept.contains(id) {
                targets.lemma_filter_contains_rev(other_than(id), id);
            }
        }
    }
}

/// A directed graph that owns its nodes in a flat arena and finds them by
/// identifier.
pub struct Graph<T> {
    arena: Vec<Node<T>>,
    root: Option<usize>,
    policy: CyclePolicy,
}

spec fn distinct_ids<T>(arena: Seq<Node<T>>) -> bool {
    forall|i: int, j: int|
        0 <= i < j < arena.len() ==> (#[trigger] arena[i])@.index != (#[trigger] arena[j])@.index
}

spec fn holds_id<T>(arena: Seq<Node<T>>, id: usize) -> bool {
    exists|i: int| 0 <= i < arena.len() && (#[trigger] arena[i])@.index == id
}

spec fn slot_of<T>(arena: Seq<Node<T>>, id: usize) -> int {
    choose|i: int| 0 <= i < arena.len() && (#[trigger] arena[i])@.index == id
}

spec fn arena_nodes<T>(arena: Seq<Node<T>>) -> Map<usize, NodeView<T>> {
    Map::new(|id: usize| holds_id(arena, id), |id: usize| arena[slot_of(arena, id)]@)
}

proof fn lemma_arena_nodes<T>(arena: Seq<Node<T>>)
    requires
        distinct_ids(arena),
    ensures
        forall|i: int|
            0 <= i < arena.len() ==> {
                &&& arena_nodes(arena).contains_key((#[trigger] arena[i])@.index)
                &&& arena_nodes(arena)[arena[i]@.index] == arena[i]@
            },
        forall|id: usize| #[trigger]
            arena_nodes(arena).contains_key(id) ==> {
                &&& 0 <= slot_of(arena, id) < arena.len()
                &&& arena[slot_of(arena, id)]@.index == id
                &&& arena_nodes(arena)[id].index == id
            },
        arena_nodes(arena).dom().finite(),
{
    let ids = arena.map_values(|node: Node<T>| node@.index);
    assert forall|id: usize| arena_nodes(arena).dom().contains(id) <==> ids.to_set().contains(
        id,
    ) by {
        if arena_nodes(arena).dom().contains(id) {
            let i = slot_of(arena, id);
            assert(ids[i] == id);
        }
        if ids.to_set().contains(id) {
            let i = choose|i: int| 0 <= i < ids.len() && ids[i] == id;
            assert(arena[i]@.index == id);
        }
    }
    assert(arena_nodes(arena).dom() =~= ids.to_set());
    seq_to_set_is_finite(ids);
}

impl<T> View for Graph<T> {
    type V = GraphView<T>;

    closed spec fn view(&self) -> GraphView<T> {
        GraphView { nodes: arena_nodes(self.arena@), root: self.root, policy: self.policy }
    }
}

/// Takes every occurrence of `target` out of `targets` and keeps the order
/// of the rest.
fn discard(targets: &mut Vec<usize>, target: usize)
    ensures
        final(targets)@ == old(targets)@.filter(other_than(target)),
{
    let mut kept: Vec<usize> = Vec::new();
    let mut i: usize = 0;
    while i < targets.len()
        invariant
            i <= targets.len(),
            targets@ == old(targets)@,
            kept@ == targets@.take(i as int).filter(other_than(target)),
        decreases targets.len() - i,
    {
        let t = targets[i];
        proof {
            targets@.lemma_take_succ_push(i as int);
            targets@.take(i as int).lemma_filter_push(t, other_than(target));
        }
        if t != target {
            kept.push(t);
        }
        i += 1;
    }
    assert(targets@.take(targets@.len() as int) =~= targets@);
    *targets = kept;
}

impl<T> Graph<T> {
    /// The arena holds no identifier twice.
    pub closed spec fn wf(&self) -> bool {
        distinct_ids(self.arena@)
    }

    /// The view of a well-formed graph is well formed.
    pub proof fn lemma_view_wf(&self)
        requires
            self.wf(),
        ensures
            self@.wf(),
    {
        lemma_arena_nodes(self.arena@);
    }

    /// An empty graph without a root that accepts any cycle.
    pub fn new() -> (graph: Self)
        ensures
            graph.wf(),
            graph@ == (GraphView::<T> {
                nodes: Map::empty(),
                root: None,
                policy: CyclePolicy::Unrestricted,
            }),
    {
        Self::with_policy(CyclePolicy::Unrestricted)
    }

    /// An empty graph without a root that follows `policy`.
    pub fn with_policy(policy: CyclePolicy) -> (graph: Self)
        ensures
            graph.wf(),
            graph@ == (GraphView::<T> { nodes: Map::empty(), root: None, policy }),
    {
        let graph = Graph { arena: Vec::new(), root: None, policy };
        assert(graph@.nodes =~= Map::empty());
        graph
    }

    /// The current root, if one has been set.
    pub fn root(&self) -> (root: Option<usize>)
        ensures
            root == self@.root,
    {
        self.root
    }

    /// The policy the graph was made with.
    pub fn policy(&self) -> (policy: CyclePolicy)
        ensures
            policy == self@.policy,
    {
        self.policy
    }

    /// The number of nodes.
    pub fn len(&self) -> (count: usize)
        requires
            self.wf(),
        ensures
            count == self@.nodes.dom().len(),
    {
        proof {
            let ids = self.arena@.map_values(|node: Node<T>| node@.index);
            lemma_arena_nodes(self.arena@);
            assert forall|id: usize| self@.nodes.dom().contains(id) <==> ids.to_set().contains(
                id,
            ) by {
                if self@.nodes.dom().contains(id) {
                    let i = slot_of(self.arena@, id);
                    assert(ids[i] == id);
                }
                if ids.to_set().contains(id) {
                    let i = choose|i: int| 0 <= i < ids.len() && ids[i] == id;
                    assert(self.arena@[i]@.index == id);
                }
            }
            assert(self@.nodes.dom() =~= ids.to_set());
            assert(ids.no_duplicates()) by {
                assert forall|i: int, j: int| 0 <= i < ids.len() && 0 <= j < ids.len() && i != j
                    implies ids[i] != ids[j] by {
                    if i < j {
                        assert(self.arena@[i]@.index != self.arena@[j]@.index);
                    } else {
                        assert(self.arena@[j]@.index != self.arena@[i]@.index);
                    }
                }
            }
            ids.unique_seq_to_set();
        }
        self.arena.len()
    }

    /// Where the arena holds the node with this identifier.
    fn position(&self, index: usize) -> (slot: Option<usize>)
        ensures
            match slot {
                Some(i) => i < self.arena.len() && self.arena[i as int]@.index == index,
                None => !holds_id(self.arena@, index),
            },
    {
        let mut i: usize = 0;
        while i < self.arena.len()
            invariant
                i <= self.arena.len(),
                forall|j: int| 0 <= j < i ==> (#[trigger] self.arena[j])@.index != index,
            decreases self.arena.len() - i,
        {
            if self.arena[i].index() == index {
                return Some(i);
            }
            i += 1;
        }
        None
    }

    /// Whether a node with this identifier is in the graph.
    pub fn in_graph(&self, index: usize) -> (found: bool)
        requires
            self.wf(),
        ensures
            found == self@.contains(index),
    {
        self.position(index).is_some()
    }

    /// Borrows the node with this identifier.
    pub fn get_node(&self, index: usize) -> (found: Option<&Node<T>>)
        requires
            self.wf(),
        ensures
            match found {
                Some(node) => self@.contains(index) && node@ == self@.nodes[index],
                None => !self@.contains(index),
            },
    {
        proof {
            lemma_arena_nodes(self.arena@);
        }
        match self.position(index) {
            Some(i) => Some(&self.arena[i]),
            None => None,
        }
    }

    /// Borrows the node with this identifier for change. The graph stays
    /// well formed as long as the node keeps its identifier; what the caller
    /// leaves in the node is what the graph then holds under that identifier.
    pub fn get_node_mut(&mut self, index: usize) -> (found: Option<&mut Node<T>>)
        requires
            old(self).wf(),
        ensures
            match found {
                Some(node) => {
                    &&& old(self)@.contains(index)
                    &&& node@ == old(self)@.nodes[index]
                    &&& final(node)@.index == index ==> {
                        &&& final(self).wf()
                        &&& final(self)@ == (GraphView {
                            nodes: old(self)@.nodes.insert(index, final(node)@),
                            ..old(self)@
                        })
                    }
                },
                None => !old(self)@.contains(index) && *final(self) == *old(self),
            },
    {
        proof {
            lemma_arena_nodes(self.arena@);
        }
        match self.position(index) {
            Some(i) => {
                proof {
                    let before = self.arena@;
                    assert forall|node: Node<T>| node@.index == index implies distinct_ids(
                        #[trigger] before.update(i as int, node),
                    ) && arena_nodes(before.update(i as int, node)) == arena_nodes(before).insert(
                        index,
                        node@,
                    ) by {
                        lemma_replaced(before, before.update(i as int, node), i as int);
                    }
                }
                Some(&mut self.arena[i])
            },
            None => None,
        }
    }

    /// Takes ownership of `node`, unless its identifier is taken or, where
    /// cycles of two nodes are forbidden, its edges would close one. Edges
    /// that the node brings along are taken as they are.
    pub fn add_node(&mut self, node: Node<T>) -> (result: Result<(), GraphError>)
        requires
            old(self).wf(),
        ensures
            final(self).wf(),
            result == old(self)@.add_node_outcome(node@),
            final(self)@ == if result is Ok {
                old(self)@.with_node(node@)
            } else {
                old(self)@
            },
    {
        proof {
            lemma_arena_nodes(self.arena@);
        }
        if self.position(node.index()).is_some() {
            return Err(GraphError::DuplicateId);
        }
        if self.policy == CyclePolicy::NoTwoCycles && self.closes_two_cycle(&node) {
            return Err(GraphError::CycleForbidden);
        }
        let ghost before = self.arena@;
        let ghost added = node@;
        self.arena.push(node);
        proof {
            let after = self.arena@;
            assert(distinct_ids(after)) by {
                assert forall|i: int, j: int| 0 <= i < j < after.len() implies (#[trigger] after[i])@.index
                    != (#[trigger] after[j])@.index by {
                    if j < before.len() {
                        assert(before[i]@.index != before[j]@.index);
                    } else {
                        assert(before[i]@.index != added.index);
                    }
                }
            }
            lemma_arena_nodes(after);
            assert forall|id: usize| #[trigger]
                arena_nodes(after).contains_key(id) <==> arena_nodes(before).insert(
                    added.index,
                    added,
                ).contains_key(id) by {
                if arena_nodes(after).contains_key(id) {
                    let i = slot_of(after, id);
                    if i < before.len() {
                        assert(before[i]@.index == id);
                    }
                }
                if arena_nodes(before).contains_key(id) {
                    let i = slot_of(before, id);
                    assert(after[i]@.index == id);
                }
                if id == added.index {
                    assert(after[before.len() as int]@.index == id);
                }
            }
            assert forall|id: usize| #[trigger]
                arena_nodes(after).contains_key(id) implies arena_nodes(after)[id] == arena_nodes(
                before,
            ).insert(added.index, added)[id] by {
                let i = slot_of(after, id);
                if i < before.len() {
                    assert(before[i]@.index == id);
                }
            }
            assert(arena_nodes(after) =~= arena_nodes(before).insert(added.index, added));
        }
        Ok(())
    }

    /// Whether some node of the graph points to `node` and is pointed to by it.
    fn closes_two_cycle(&self, node: &Node<T>) -> (closes: bool)
        requires
            self.wf(),
        ensures
            closes == self@.closes_two_cycle(node@),
    {
        proof {
            lemma_arena_nodes(self.arena@);
        }
        let mut i: usize = 0;
        while i < self.arena.len()
            invariant
                self.wf(),
                i <= self.arena.len(),
                forall|j: int|
                    0 <= j < i ==> !((#[trigger] self.arena[j])@.edges.contains(node@.index)
                        && node@.edges.contains(self.arena[j]@.index)),
            decreases self.arena.len() - i,
        {
            let other = &self.arena[i];
            if other.points_to(node.index()) && node.points_to(other.index()) {
                proof {
                    lemma_arena_nodes(self.arena@);
                    assert(self@.has_edge(other@.index, node@.index));
                }
                return true;
            }
            i += 1;
        }
        proof {
            assert forall|id: usize| #[trigger]
                self@.has_edge(id, node@.index) implies !node@.edges.contains(id) by {
                let j = slot_of(self.arena@, id);
                assert(self.arena[j]@.index == id);
            }
        }
        false
    }

    /// Deletes the node with this identifier and every edge that led to it.
    /// The root is left as it is, also where it named the deleted node: a
    /// traversal from a root that is gone visits nothing.
    pub fn remove_node(&mut self, index: usize) -> (result: Result<(), GraphError>)
        requires
            old(self).wf(),
        ensures
            final(self).wf(),
            result == old(self)@.remove_node_outcome(index),
            final(self)@ == if result is Ok {
                old(self)@.without_node(index)
            } else {
                old(self)@
            },
    {
        proof {
            lemma_arena_nodes(self.arena@);
        }
        let slot = match self.position(index) {
            Some(i) => i,
            None => {
                return Err(GraphError::NodeNotFound);
            },
        };
        let ghost before = self.arena@;
        self.arena.remove(slot);
        let ghost rest = self.arena@;
        assert(rest == before.remove(slot as int));
        assert(distinct_ids(rest)) by {
            assert forall|i: int, j: int| 0 <= i < j < rest.len() implies (#[trigger] rest[i])@.index
                != (#[trigger] rest[j])@.index by {
                let a = if i < slot { i } else { i + 1 };
                let b = if j < slot { j } else { j + 1 };
                assert(rest[i] == before[a]);
                assert(rest[j] == before[b]);
            }
        }
        let mut i: usize = 0;
        while i < self.arena.len()
            invariant
                i <= self.arena.len(),
                self.arena.len() == rest.len(),
                self.root == old(self).root,
                self.policy == old(self).policy,
                forall|j: int|
                    0 <= j < i ==> (#[trigger] self.arena[j])@ == (NodeView {
                        edges: rest[j]@.edges.filter(other_than(index)),
                        ..rest[j]@
                    }),
                forall|j: int| i <= j < rest.len() ==> (#[trigger] self.arena[j]) == rest[j],
            decreases self.arena.len() - i,
        {
            let node = &mut self.arena[i];
            discard(node.connected_mut(), index);
            i += 1;
        }
        proof {
            let after = self.arena@;
            assert(distinct_ids(after)) by {
                assert forall|a: int, b: int| 0 <= a < b < after.len() implies (#[trigger] after[a])@.index
                    != (#[trigger] after[b])@.index by {
                    assert(rest[a]@.index != rest[b]@.index);
                }
            }
            lemma_arena_nodes(after);
            lemma_arena_nodes(rest);
            let scrub = |node: NodeView<T>|
                NodeView { edges: node.edges.filter(other_than(index)), ..node };
            let expect = arena_nodes(before).remove(index).map_values(scrub);
            assert forall|id: usize| #[trigger]
                arena_nodes(after).contains_key(id) <==> expect.contains_key(id) by {
                if arena_nodes(after).contains_key(id) {
                    let j = slot_of(after, id);
                    assert(rest[j]@.index == id);
                    let a = if j < slot { j } else { j + 1 };
                    assert(rest[j] == before[a]);
                    assert(before[a]@.index == id);
                    assert(before[slot as int]@.index == index);
                }
                if expect.contains_key(id) {
                    let a = slot_of(before, id);
                    assert(a != slot);
                    let j = if a < slot { a } else { a - 1 };
                    assert(rest[j] == before[a]);
                    assert(after[j]@.index == id);
                }
            }
            assert forall|id: usize| #[trigger]
                arena_nodes(after).contains_key(id) implies arena_nodes(after)[id] == expect[id] by {
                let j = slot_of(after, id);
                let a = if j < slot { j } else { j + 1 };
                assert(rest[j] == before[a]);
                assert(before[a]@.index == id);
            }
            assert(arena_nodes(after) =~= expect);
        }
        Ok(())
    }

    /// Makes the node with this identifier the root. A root that is set can
    /// be moved to another node and cannot be taken away.
    pub fn set_root(&mut self, root: Option<usize>) -> (result: Result<(), GraphError>)
        requires
            old(self).wf(),
        ensures
            final(self).wf(),
            result == old(self)@.set_root_outcome(root),
            final(self)@ == if result is Ok && root is Some {
                GraphView { root, ..old(self)@ }
            } else {
                old(self)@
            },
    {
        match root {
            Some(id) => {
                if self.in_graph(id) {
                    self.root = root;
                    Ok(())
                } else {
                    Err(GraphError::InvalidRoot)
                }
            },
            None => {
                if self.root.is_some() {
                    Err(GraphError::RootAlreadySet)
                } else {
                    Ok(())
                }
            },
        }
    }

    /// Appends an edge from `from` to `to`. Everything is checked before
    /// anything is changed.
    pub fn add_edge(&mut self, from: usize, to: usize) -> (result: Result<(), GraphError>)
        requires
            old(self).wf(),
        ensures
            final(self).wf(),
            result == old(self)@.add_edge_outcome(from, to),
            final(self)@ == if result is Ok {
                old(self)@.with_edge(from, to)
            } else {
                old(self)@
            },
    {
        proof {
            lemma_arena_nodes(self.arena@);
        }
        let source = match self.position(from) {
            Some(i) => i,
            None => {
                return Err(GraphError::NodeNotFound);
            },
        };
        let target = match self.position(to) {
            Some(i) => i,
            None => {
                return Err(GraphError::NodeNotFound);
            },
        };
        if from == to {
            return Err(GraphError::SelfLoop);
        }
        if self.arena[source].points_to(to) {
            return Err(GraphError::DuplicateEdge);
        }
        if self.policy == CyclePolicy::NoTwoCycles && self.arena[target].points_to(from) {
            return Err(GraphError::CycleForbidden);
        }
        let ghost before = self.arena@;
        let node = &mut self.arena[source];
        node.connected_mut().push(to);
        proof {
            lemma_replaced(before, self.arena@, source as int);
        }
        Ok(())
    }

    /// A fresh traversal that starts at the current root.
    pub fn iterator(&self) -> (made: Result<GraphIter, GraphError>)
        ensures
            match self@.root {
                Some(id) => made is Ok && made->Ok_0@ == start_at(id),
                None => made == Err::<GraphIter, GraphError>(GraphError::NoRoot),
            },
    {
        GraphIter::new(self.root)
    }

    /// Removes the edge from `from` to `to`.
    pub fn remove_edge(&mut self, from: usize, to: usize) -> (result: Result<(), GraphError>)
        requires
            old(self).wf(),
        ensures
            final(self).wf(),
            result == old(self)@.remove_edge_outcome(from, to),
            final(self)@ == if result is Ok {
                old(self)@.without_edge(from, to)
            } else {
                old(self)@
            },
    {
        proof {
            lemma_arena_nodes(self.arena@);
        }
        let source = match self.position(from) {
            Some(i) => i,
            None => {
                return Err(GraphError::NodeNotFound);
            },
        };
        if self.position(to).is_none() {
            return Err(GraphError::NodeNotFound);
        }
        if !self.arena[source].points_to(to) {
            return Err(GraphError::EdgeNotFound);
        }
        let ghost before = self.arena@;
        let node = &mut self.arena[source];
        discard(node.connected_mut(), to);
        proof {
            lemma_replaced(before, self.arena@, source as int);
        }
        Ok(())
    }
}

/// Replacing one node of an arena without repeated identifiers by a node
/// with the same identifier replaces that identifier's entry in the map.
proof fn lemma_replaced<T>(before: Seq<Node<T>>, after: Seq<Node<T>>, slot: int)
    requires
        distinct_ids(before),
        0 <= slot < before.len(),
        after.len() == before.len(),
        after[slot]@.index == before[slot]@.index,
        forall|j: int| 0 <= j < before.len() && j != slot ==> after[j] == before[j],
    ensures
        distinct_ids(after),
        arena_nodes(after) == arena_nodes(before).insert(before[slot]@.index, after[slot]@),
{
    assert(distinct_ids(after)) by {
        assert forall|a: int, b: int| 0 <= a < b < after.len() implies (#[trigger] after[a])@.index
            != (#[trigger] after[b])@.index by {
            assert(before[a]@.index != before[b]@.index);
        }
    }
    lemma_arena_nodes(after);
    lemma_arena_nodes(before);
    let expect = arena_nodes(before).insert(before[slot]@.index, after[slot]@);
    assert forall|id: usize| #[trigger]
        arena_nodes(after).contains_key(id) <==> expect.contains_key(id) by {
        if arena_nodes(after).contains_key(id) {
            let j = slot_of(after, id);
            assert(before[j]@.index == id);
        }
        if arena_nodes(before).contains_key(id) {
            let j = slot_of(before, id);
            assert(after[j]@.index == id);
        }
    }
    assert forall|id: usize| #[trigger]
        arena_nodes(after).contains_key(id) implies arena_nodes(after)[id] == expect[id] by {
        let j = slot_of(after, id);
        assert(before[j]@.index == id);
    }
    assert(arena_nodes(after) =~= expect);
}

} // verus!
