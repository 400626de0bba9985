use vstd::prelude::*;
use std::collections::HashSet;
use crate::error::GraphError;
use crate::graph::Graph;

verus! {

broadcast use vstd::std_specs::hash::group_hash_axioms;

/// The mathematical content of a traversal: the identifiers still to be
/// looked at, in order, and the identifiers already taken from the frontier.
pub struct IterView {
    pub frontier: Seq<usize>,
    pub visited: Set<usize>,
}

/// The state in which a traversal from `root` starts.
pub open spec fn start_at(root: usize) -> IterView {
    IterView { frontier: seq![root], visited: Set::empty() }
}

/// The order in which a traversal takes identifiers from its frontier.
pub enum Order {
    /// From the front: the frontier is a queue.
    BreadthFirst,
    /// From the back: the frontier is a stack.
    DepthFirst,
}

impl Order {
    /// The identifier that is taken next from a frontier that is not empty.
    pub open spec fn pick(self, frontier: Seq<usize>) -> usize {
        match self {
            Order::BreadthFirst => frontier.first(),
            Order::DepthFirst => frontier.last(),
        }
    }

    /// The frontier without the identifier that is taken next.
    pub open spec fn rest(self, frontier: Seq<usize>) -> Seq<usize> {
        match self {
            Order::BreadthFirst => frontier.drop_first(),
            Order::DepthFirst => frontier.drop_last(),
        }
    }

    /// The edge targets of a node as they are put at the back of the
    /// frontier: as listed for a queue, reversed for a stack, so that either
    /// way the target listed first is taken first.
    pub open spec fn spread(self, targets: Seq<usize>) -> Seq<usize> {
        match self {
            Order::BreadthFirst => targets,
            Order::DepthFirst => targets.reverse(),
        }
    }
}

/// What one step does to a traversal over the given topology, and the
/// identifier it produces.
///
/// Identifiers are taken from the frontier one by one. One that was seen
/// before is dropped. One that names no node is marked as seen and dropped.
/// The first one that is new and names a node is marked as seen, has its
/// edge targets put at the back of the frontier, and is produced. When the
/// frontier runs out, nothing is produced, and nothing will be.
pub open spec fn step(order: Order, adjacency: Map<usize, Seq<usize>>, state: IterView) -> (
    IterView,
    Option<usize>,
)
    decreases state.frontier.len(),
{
    if state.frontier.len() == 0 {
        (state, None)
    } else {
        let id = order.pick(state.frontier);
        let rest = order.rest(state.frontier);
        if state.visited.contains(id) {
            step(order, adjacency, IterView { frontier: rest, visited: state.visited })
        } else if !adjacency.contains_key(id) {
            step(order, adjacency, IterView { frontier: rest, visited: state.visited.insert(id) })
        } else {
            (
                IterView {
                    frontier: rest + order.spread(adjacency[id]),
                    visited: state.visited.insert(id),
                },
                Some(id),
            )
        }
    }
}

/// How many nodes of the topology a traversal has not seen yet.
pub open spec fn unseen(adjacency: Map<usize, Seq<usize>>, state: IterView) -> nat {
    adjacency.dom().difference(state.visited).len()
}

/// Everything that a traversal will produce if it is stepped until it
/// produces nothing, over a topology that does not change meanwhile.
pub open spec fn visit_order(
    order: Order,
    adjacency: Map<usize, Seq<usize>>,
    state: IterView,
) -> Seq<usize>
    decreases unseen(adjacency, state),
    when adjacency.dom().finite()
    via visit_order_decreases
{
    let (after, next) = step(order, adjacency, state);
    match next {
        Some(id) => seq![id] + visit_order(order, adjacency, after),
        None => Seq::empty(),
    }
}

#[via_fn]
proof fn visit_order_decreases(order: Order, adjacency: Map<usize, Seq<usize>>, state: IterView) {
    lemma_step_sees_more(order, adjacency, state);
}

/// A step never forgets what was seen. What it produces names a node, was
/// not seen before and is seen afterwards. When it produces nothing, the
/// frontier is empty, so that every later step produces nothing either.
pub proof fn lemma_step(order: Order, adjacency: Map<usize, Seq<usize>>, state: IterView)
    ensures
        state.visited.subset_of(step(order, adjacency, state).0.visited),
        match step(order, adjacency, state).1 {
            Some(id) => {
                &&& adjacency.contains_key(id)
                &&& !state.visited.contains(id)
                &&& step(order, adjacency, state).0.visited.contains(id)
            },
            None => step(order, adjacency, state).0.frontier.len() == 0,
        },
    decreases state.frontier.len(),
{
    if state.frontier.len() > 0 {
        let id = order.pick(state.frontier);
        let rest = order.rest(state.frontier);
        if state.visited.contains(id) {
            lemma_step(order, adjacency, IterView { frontier: rest, visited: state.visited });
        } else if !adjacency.contains_key(id) {
            lemma_step(
                order,
                adjacency,
                IterView { frontier: rest, visited: state.visited.insert(id) },
            );
        }
    }
}

/// What has been seen is never produced again and stays seen, whatever the
/// topology has become in the meantime.
pub proof fn lemma_seen_once(
    order: Order,
    adjacency: Map<usize, Seq<usize>>,
    state: IterView,
    id: usize,
)
    requires
        state.visited.contains(id),
    ensures
        step(order, adjacency, state).1 != Some(id),
        step(order, adjacency, state).0.visited.contains(id),
{
    lemma_step(order, adjacency, state);
}

/// A step that produces an identifier leaves fewer nodes unseen.
pub proof fn lemma_step_sees_more(
    order: Order,
    adjacency: Map<usize, Seq<usize>>,
    state: IterView,
)
    requires
        adjacency.dom().finite(),
    ensures
        step(order, adjacency, state).1 is Some ==> unseen(
            adjacency,
            step(order, adjacency, state).0,
        ) < unseen(adjacency, state),
{
    lemma_step(order, adjacency, state);
    let (after, next) = step(order, adjacency, state);
    if let Some(id) = next {
        let before_left = adjacency.dom().difference(state.visited);
        let after_left = adjacency.dom().difference(after.visited);
        assert(after_left.subset_of(before_left.remove(id)));
        vstd::set_lib::lemma_len_subset(after_left, before_left.remove(id));
    }
}

/// A traversal over a topology that stays as it is produces no identifier
/// twice, and produces only nodes that it had not seen when it began.
pub proof fn lemma_visit_order(order: Order, adjacency: Map<usize, Seq<usize>>, state: IterView)
    requires
        adjacency.dom().finite(),
    ensures
        visit_order(order, adjacency, state).no_duplicates(),
        forall|i: int|
            0 <= i < visit_order(order, adjacency, state).len() ==> {
                &&& adjacency.contains_key(#[trigger] visit_order(order, adjacency, state)[i])
                &&& !state.visited.contains(visit_order(order, adjacency, state)[i])
            },
    decreases unseen(adjacency, state),
{
    let (after, next) = step(order, adjacency, state);
    lemma_step(order, adjacency, state);
    lemma_step_sees_more(order, adjacency, state);
    if let Some(id) = next {
        lemma_visit_order(order, adjacency, after);
        let tail = visit_order(order, adjacency, after);
        let all = visit_order(order, adjacency, state);
        assert(all == seq![id] + tail);
        assert forall|i: int| 0 <= i < all.len() implies adjacency.contains_key(#[trigger] all[i])
            && !state.visited.contains(all[i]) by {
            if i > 0 {
                assert(all[i] == tail[i - 1]);
            }
        }
        assert forall|i: int, j: int| 0 <= i < all.len() && 0 <= j < all.len() && i != j implies all[i]
            != all[j] by {
            if i > 0 {
                assert(all[i] == tail[i - 1]);
            }
            if j > 0 {
                assert(all[j] == tail[j - 1]);
            }
        }
    }
}

/// A traversal never produces an identifier that names no node: one that
/// is absent from the topology, for instance because its node was removed,
/// is not produced by any step from any state.
pub proof fn lemma_absent_never_produced(
    order: Order,
    adjacency: Map<usize, Seq<usize>>,
    state: IterView,
    id: usize,
)
    requires
        !adjacency.contains_key(id),
    ensures
        step(order, adjacency, state).1 != Some(id),
{
    lemma_step(order, adjacency, state);
}

/// A traversal that can be resumed: it holds identifiers only, and looks
/// every node up in the graph handed to it at each step, so the graph may
/// change between steps.
pub struct GraphIter {
    stack: Vec<usize>,
    visited: HashSet<usize>,
}

impl View for GraphIter {
    type V = IterView;

    closed spec fn view(&self) -> IterView {
        IterView { frontier: self.stack@, visited: self.visited@ }
    }
}

impl GraphIter {
    /// A traversal that starts at `root`.
    pub fn new(root: Option<usize>) -> (made: Result<Self, GraphError>)
        ensures
            match root {
                Some(id) => made is Ok && made->Ok_0@ == start_at(id),
                None => made == Err::<Self, GraphError>(GraphError::NoRoot),
            },
    {
        match root {
            Some(id) => {
                let mut stack: Vec<usize> = Vec::new();
                stack.push(id);
                let made = GraphIter { stack, visited: HashSet::new() };
                assert(made@.frontier =~= seq![id]);
                Ok(made)
            },
            None => Err(GraphError::NoRoot),
        }
    }

    /// Forgets what was visited and starts again at `root`. Without a root
    /// the traversal is left as it is.
    pub fn reset(&mut self, root: Option<usize>) -> (result: Result<(), GraphError>)
        ensures
            match root {
                Some(id) => result is Ok && final(self)@ == start_at(id),
                None => result == Err::<(), GraphError>(GraphError::NoRoot) && final(self)@ == old(
                    self,
                )@,
            },
    {
        match root {
            Some(id) => {
                self.visited.clear();
                self.stack.clear();
                self.stack.push(id);
                assert(self@.frontier =~= seq![id]);
                Ok(())
            },
            None => Err(GraphError::NoRoot),
        }
    }

    /// Produces the next identifier in breadth-first order, or nothing when
    /// the frontier has run out.
    pub fn next_breadth_search<T>(&mut self, graph: &Graph<T>) -> (next: Option<usize>)
        requires
            graph.wf(),
        ensures
            (final(self)@, next) == step(Order::BreadthFirst, graph@.adjacency(), old(self)@),
    {
        let ghost adjacency = graph@.adjacency();
        while self.stack.len() > 0
            invariant
                graph.wf(),
                adjacency == graph@.adjacency(),
                step(Order::BreadthFirst, adjacency, self@) == step(
                    Order::BreadthFirst,
                    adjacency,
                    old(self)@,
                ),
            decreases self.stack.len(),
        {
            let ghost state = self@;
            let id = self.stack.remove(0);
            assert(self.stack@ =~= state.frontier.drop_first());
            if self.visited.contains(&id) {
                continue ;
            }
            self.visited.insert(id);
            match graph.get_node(id) {
                Some(node) => {
                    let targets = node.connected();
                    let ghost rest = self.stack@;
                    let mut k: usize = 0;
                    while k < targets.len()
                        invariant
                            k <= targets.len(),
                            self.stack@ == rest + targets@.take(k as int),
                            self.visited@ == state.visited.insert(id),
                        decreases targets.len() - k,
                    {
                        self.stack.push(targets[k]);
                        assert(targets@.take(k + 1) =~= targets@.take(k as int).push(
                            targets@[k as int],
                        ));
                        k += 1;
                    }
                    assert(targets@.take(k as int) =~= targets@);
                    return Some(id);
                },
                None => {},
            }
        }
        None
    }

    /// Produces the next identifier in depth-first order, or nothing when the
    /// frontier has run out.
    pub fn next_depth_search<T>(&mut self, graph: &Graph<T>) -> (next: Option<usize>)
        requires
            graph.wf(),
        ensures
            (final(self)@, next) == step(Order::DepthFirst, graph@.adjacency(), old(self)@),
    {
        let ghost adjacency = graph@.adjacency();
        loop
            invariant
                graph.wf(),
                adjacency == graph@.adjacency(),
                step(Order::DepthFirst, adjacency, self@) == step(
                    Order::DepthFirst,
                    adjacency,
                    old(self)@,
                ),
            decreases self.stack.len(),
        {
            let ghost state = self@;
            let id = match self.stack.pop() {
                Some(id) => id,
                None => {
                    return None;
                },
            };
            assert(self.stack@ =~= state.frontier.drop_last());
            if self.visited.contains(&id) {
                continue ;
            }
            self.visited.insert(id);
            match graph.get_node(id) {
                Some(node) => {
                    let targets = node.connected();
                    let ghost rest = self.stack@;
                    let mut k: usize = targets.len();
                    while k > 0
                        invariant
                            k <= targets.len(),
                            self.stack@ == rest + targets@.skip(k as int).reverse(),
                            self.visited@ == state.visited.insert(id),
                        decreases k,
                    {
                        k -= 1;
                        self.stack.push(targets[k]);
                        assert(targets@.skip(k as int).reverse() =~= targets@.skip(
                            k + 1,
                        ).reverse().push(targets@[k as int]));
                    }
                    assert(targets@.skip(0) =~= targets@);
                    return Some(id);
                },
                None => {},
            }
        }
    }
}

} // verus!
