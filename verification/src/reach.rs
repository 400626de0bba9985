use vstd::prelude::*;
use crate::iterator::{
    lemma_step, lemma_step_sees_more, start_at, step, unseen, visit_order, IterView, Order,
};

verus! {

/// The identifier after position `i` of `path` is an edge target of the one
/// at position `i`.
pub open spec fn steps_along(adjacency: Map<usize, Seq<usize>>, path: Seq<usize>, i: int) -> bool {
    adjacency[path[i]].contains(path[i + 1])
}

/// `path` is a walk through the topology: every identifier on it names a
/// node, and each is an edge target of the one before it.
pub open spec fn is_path(adjacency: Map<usize, Seq<usize>>, path: Seq<usize>) -> bool {
    &&& path.len() > 0
    &&& forall|i: int| 0 <= i < path.len() ==> adjacency.contains_key(#[trigger] path[i])
    &&& forall|i: int| 0 <= i < path.len() - 1 ==> #[trigger] steps_along(adjacency, path, i)
}

/// There is a walk through the topology from `from` to `to`.
pub open spec fn reachable(adjacency: Map<usize, Seq<usize>>, from: usize, to: usize) -> bool {
    exists|path: Seq<usize>|
        #[trigger] is_path(adjacency, path) && path.first() == from && path.last() == to
}

/// What a step that produces an identifier does to the frontier and to what
/// was seen: the identifier came from the frontier; besides it, only
/// identifiers that name no node are newly seen; its edge targets are in the
/// frontier afterwards, and so is whatever else of the frontier names a node
/// and was not seen; and nothing is in the frontier afterwards but what was
/// there before and these targets. A step produces an identifier whenever
/// the frontier holds one that names a node and was not seen.
pub proof fn lemma_step_frontier(order: Order, adjacency: Map<usize, Seq<usize>>, state: IterView)
    ensures
        match step(order, adjacency, state).1 {
            Some(id) => {
                let after = step(order, adjacency, state).0;
                &&& state.frontier.contains(id)
                &&& forall|x: usize| #[trigger]
                    after.visited.contains(x) ==> state.visited.contains(x) || x == id
                        || !adjacency.contains_key(x)
                &&& forall|x: usize| #[trigger]
                    adjacency[id].contains(x) ==> after.frontier.contains(x)
                &&& forall|x: usize| #[trigger]
                    state.frontier.contains(x) && adjacency.contains_key(x)
                        && !state.visited.contains(x) && x != id ==> after.frontier.contains(x)
                &&& forall|x: usize| #[trigger]
                    after.frontier.contains(x) ==> state.frontier.contains(x)
                        || adjacency[id].contains(x)
            },
            None => forall|x: usize| #[trigger]
                state.frontier.contains(x) ==> state.visited.contains(x)
                    || !adjacency.contains_key(x),
        },
    decreases state.frontier.len(),
{
    if state.frontier.len() > 0 {
        let id = order.pick(state.frontier);
        let rest = order.rest(state.frontier);
        assert(state.frontier.contains(id)) by {
            match order {
                Order::BreadthFirst => {
                    assert(state.frontier[0] == id);
                },
                Order::DepthFirst => {
                    assert(state.frontier[state.frontier.len() - 1] == id);
                },
            }
        }
        assert forall|x: usize| #[trigger] rest.contains(x) implies state.frontier.contains(x) by {
            let i = choose|i: int| 0 <= i < rest.len() && rest[i] == x;
            match order {
                Order::BreadthFirst => {
                    assert(state.frontier[i + 1] == x);
                },
                Order::DepthFirst => {
                    assert(state.frontier[i] == x);
                },
            }
        }
        assert forall|x: usize| #[trigger] state.frontier.contains(x) && x != id implies rest.contains(
            x,
        ) by {
            let i = choose|i: int| 0 <= i < state.frontier.len() && state.frontier[i] == x;
            match order {
                Order::BreadthFirst => {
                    assert(rest[i - 1] == x);
                },
                Order::DepthFirst => {
                    assert(rest[i] == x);
                },
            }
        }
        if state.visited.contains(id) {
            lemma_step_frontier(
                order,
                adjacency,
                IterView { frontier: rest, visited: state.visited },
            );
        } else if !adjacency.contains_key(id) {
            lemma_step_frontier(
                order,
                adjacency,
                IterView { frontier: rest, visited: state.visited.insert(id) },
            );
        } else {
            let targets = adjacency[id];
            let spread = order.spread(targets);
            let after = step(order, adjacency, state).0;
            assert(after.frontier == rest + spread);
            assert forall|x: usize| targets.contains(x) <==> spread.contains(x) by {
                if targets.contains(x) {
                    let i = choose|i: int| 0 <= i < targets.len() && targets[i] == x;
                    match order {
                        Order::BreadthFirst => {},
                        Order::DepthFirst => {
                            assert(spread[targets.len() - 1 - i] == x);
                        },
                    }
                }
                if spread.contains(x) {
                    let i = choose|i: int| 0 <= i < spread.len() && spread[i] == x;
                    match order {
                        Order::BreadthFirst => {},
                        Order::DepthFirst => {
                            assert(targets[targets.len() - 1 - i] == x);
                        },
                    }
                }
            }
            assert forall|x: usize| #[trigger] targets.contains(x) implies after.frontier.contains(
                x,
            ) by {
                let i = choose|i: int| 0 <= i < spread.len() && spread[i] == x;
                assert(after.frontier[rest.len() + i] == x);
            }
            assert forall|x: usize| #[trigger] rest.contains(x) implies after.frontier.contains(
                x,
            ) by {
                let i = choose|i: int| 0 <= i < rest.len() && rest[i] == x;
                assert(after.frontier[i] == x);
            }
            assert forall|x: usize| #[trigger] after.frontier.contains(x) implies rest.contains(x)
                || targets.contains(x) by {
                let i = choose|i: int| 0 <= i < after.frontier.len() && after.frontier[i] == x;
                if i < rest.len() {
                    assert(rest[i] == x);
                } else {
                    assert(spread[i - rest.len()] == x);
                }
            }
        }
    }
}

/// Where `id` stands last on a path that holds it.
proof fn lemma_last_occurrence(path: Seq<usize>, id: usize) -> (at: int)
    requires
        path.contains(id),
    ensures
        0 <= at < path.len(),
        path[at] == id,
        forall|j: int| at < j < path.len() ==> path[j] != id,
    decreases path.len(),
{
    if path.last() == id {
        path.len() - 1
    } else {
        let shorter = path.drop_last();
        let i = choose|i: int| 0 <= i < path.len() && path[i] == id;
        assert(shorter[i] == id);
        let at = lemma_last_occurrence(shorter, id);
        assert forall|j: int| at < j < path.len() implies path[j] != id by {
            if j < shorter.len() {
                assert(shorter[j] == path[j]);
            }
        }
        at
    }
}

/// What is left of a walk from any of its positions on is a walk to the
/// same end.
proof fn lemma_rest_of_walk(adjacency: Map<usize, Seq<usize>>, path: Seq<usize>, from: int)
    requires
        is_path(adjacency, path),
        0 <= from < path.len(),
    ensures
        is_path(adjacency, path.skip(from)),
        path.skip(from).first() == path[from],
        path.skip(from).last() == path.last(),
{
    let onward = path.skip(from);
    assert forall|i: int| 0 <= i < onward.len() implies adjacency.contains_key(
        #[trigger] onward[i],
    ) by {
        assert(onward[i] == path[from + i]);
    }
    assert forall|i: int| 0 <= i < onward.len() - 1 implies #[trigger] steps_along(
        adjacency,
        onward,
        i,
    ) by {
        assert(steps_along(adjacency, path, from + i));
        assert(onward[i] == path[from + i]);
        assert(onward[i + 1] == path[from + i + 1]);
    }
}

/// A walk with one more node before it is a walk, if its first node is an
/// edge target of that node.
proof fn lemma_longer_walk(adjacency: Map<usize, Seq<usize>>, first: usize, path: Seq<usize>)
    requires
        is_path(adjacency, path),
        adjacency.contains_key(first),
        adjacency[first].contains(path.first()),
    ensures
        is_path(adjacency, seq![first] + path),
        (seq![first] + path).first() == first,
        (seq![first] + path).last() == path.last(),
{
    let longer = seq![first] + path;
    assert forall|i: int| 0 <= i < longer.len() implies adjacency.contains_key(
        #[trigger] longer[i],
    ) by {
        if i > 0 {
            assert(longer[i] == path[i - 1]);
        }
    }
    assert forall|i: int| 0 <= i < longer.len() - 1 implies #[trigger] steps_along(
        adjacency,
        longer,
        i,
    ) by {
        assert(longer[i + 1] == path[i]);
        if i > 0 {
            assert(longer[i] == path[i - 1]);
            assert(steps_along(adjacency, path, i - 1));
        }
    }
}

/// The part of a walk that a traversal still has before it after a step
/// that produced `id`: the whole walk if `id` is not on it, else what
/// follows the last place where `id` stands. It is free of `id` and, unless
/// the walk ended at `id`, a walk to the same end that begins either where
/// the walk began or at an edge target of `id`.
proof fn lemma_walk_after(adjacency: Map<usize, Seq<usize>>, path: Seq<usize>, id: usize) -> (left:
    Seq<usize>)
    requires
        is_path(adjacency, path),
    ensures
        forall|i: int| 0 <= i < left.len() ==> (#[trigger] left[i]) != id,
        forall|i: int| 0 <= i < left.len() ==> path.contains(#[trigger] left[i]),
        left.len() == 0 ==> path.last() == id,
        left.len() > 0 ==> {
            &&& is_path(adjacency, left)
            &&& left.last() == path.last()
            &&& (left.first() == path.first() || adjacency[id].contains(left.first()))
        },
{
    if path.contains(id) {
        let at = lemma_last_occurrence(path, id);
        let left = path.skip(at + 1);
        if at < path.len() - 1 {
            lemma_rest_of_walk(adjacency, path, at + 1);
            assert(steps_along(adjacency, path, at));
        }
        assert forall|i: int| 0 <= i < left.len() implies (#[trigger] left[i]) != id
            && path.contains(left[i]) by {
            assert(left[i] == path[at + 1 + i]);
        }
        left
    } else {
        assert forall|i: int| 0 <= i < path.len() implies (#[trigger] path[i]) != id by {
            if path[i] == id {
                assert(path.contains(id));
            }
        }
        path
    }
}

/// A traversal produces the end of every walk that begins in its frontier
/// and passes only through nodes that it has not seen.
pub proof fn lemma_walk_is_visited(
    order: Order,
    adjacency: Map<usize, Seq<usize>>,
    state: IterView,
    path: Seq<usize>,
)
    requires
        adjacency.dom().finite(),
        is_path(adjacency, path),
        state.frontier.contains(path.first()),
        forall|i: int| 0 <= i < path.len() ==> !state.visited.contains(#[trigger] path[i]),
    ensures
        visit_order(order, adjacency, state).contains(path.last()),
    decreases unseen(adjacency, state),
{
    lemma_step(order, adjacency, state);
    lemma_step_frontier(order, adjacency, state);
    lemma_step_sees_more(order, adjacency, state);
    let (after, next) = step(order, adjacency, state);
    let all = visit_order(order, adjacency, state);
    assert(adjacency.contains_key(path[0]));
    assert(!state.visited.contains(path[0]));
    match next {
        None => {
            assert(false);
        },
        Some(id) => {
            let tail = visit_order(order, adjacency, after);
            assert(all == seq![id] + tail);
            let left = lemma_walk_after(adjacency, path, id);
            if left.len() == 0 {
                assert(all[0] == path.last());
            } else {
                assert forall|i: int| 0 <= i < left.len() implies !after.visited.contains(
                    #[trigger] left[i],
                ) by {
                    let x = left[i];
                    let j = choose|j: int| 0 <= j < path.len() && path[j] == x;
                    assert(!state.visited.contains(path[j]));
                    assert(adjacency.contains_key(path[j]));
                }
                assert(after.frontier.contains(left.first())) by {
                    assert(left[0] != id);
                }
                lemma_walk_is_visited(order, adjacency, after, left);
                let i = choose|i: int| 0 <= i < tail.len() && tail[i] == left.last();
                assert(all[i + 1] == path.last());
            }
        },
    }
}

/// A traversal from `root` produces every node that can be reached from it.
pub proof fn lemma_reachable_is_visited(
    order: Order,
    adjacency: Map<usize, Seq<usize>>,
    root: usize,
    id: usize,
)
    requires
        adjacency.dom().finite(),
        reachable(adjacency, root, id),
    ensures
        visit_order(order, adjacency, start_at(root)).contains(id),
{
    let path = choose|path: Seq<usize>|
        #[trigger] is_path(adjacency, path) && path.first() == root && path.last() == id;
    assert(start_at(root).frontier[0] == root);
    lemma_walk_is_visited(order, adjacency, start_at(root), path);
}

/// Whatever a traversal produces can be reached from an identifier in its
/// frontier.
pub proof fn lemma_visited_from_frontier(
    order: Order,
    adjacency: Map<usize, Seq<usize>>,
    state: IterView,
    id: usize,
)
    requires
        adjacency.dom().finite(),
        visit_order(order, adjacency, state).contains(id),
    ensures
        exists|from: usize| #[trigger]
            state.frontier.contains(from) && reachable(adjacency, from, id),
    decreases unseen(adjacency, state),
{
    lemma_step(order, adjacency, state);
    lemma_step_frontier(order, adjacency, state);
    lemma_step_sees_more(order, adjacency, state);
    let (after, next) = step(order, adjacency, state);
    let all = visit_order(order, adjacency, state);
    let at = choose|i: int| 0 <= i < all.len() && all[i] == id;
    match next {
        None => {
            assert(false);
        },
        Some(first) => {
            let tail = visit_order(order, adjacency, after);
            assert(all == seq![first] + tail);
            if at == 0 {
                assert(is_path(adjacency, seq![first]));
                assert(reachable(adjacency, first, id));
                assert(state.frontier.contains(first));
            } else {
                assert(tail[at - 1] == id);
                lemma_visited_from_frontier(order, adjacency, after, id);
                let from = choose|from: usize| #[trigger]
                    after.frontier.contains(from) && reachable(adjacency, from, id);
                if !state.frontier.contains(from) {
                    assert(adjacency[first].contains(from));
                    let path = choose|path: Seq<usize>|
                        #[trigger] is_path(adjacency, path) && path.first() == from && path.last()
                            == id;
                    let longer = seq![first] + path;
                    lemma_longer_walk(adjacency, first, path);
                    assert(reachable(adjacency, first, id));
                    assert(state.frontier.contains(first));
                }
            }
        },
    }
}

/// A traversal from `root` over a topology that stays as it is produces
/// the nodes that can be reached from `root`, and no others.
pub proof fn lemma_visits_what_is_reachable(
    order: Order,
    adjacency: Map<usize, Seq<usize>>,
    root: usize,
    id: usize,
)
    requires
        adjacency.dom().finite(),
    ensures
        visit_order(order, adjacency, start_at(root)).contains(id) <==> reachable(
            adjacency,
            root,
            id,
        ),
{
    if reachable(adjacency, root, id) {
        lemma_reachable_is_visited(order, adjacency, root, id);
    }
    if visit_order(order, adjacency, start_at(root)).contains(id) {
        lemma_visited_from_frontier(order, adjacency, start_at(root), id);
        let from = choose|from: usize| #[trigger]
            start_at(root).frontier.contains(from) && reachable(adjacency, from, id);
        let i = choose|i: int|
            0 <= i < start_at(root).frontier.len() && start_at(root).frontier[i] == from;
        assert(from == root);
    }
}

} // verus!
