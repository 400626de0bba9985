use vstd::prelude::*;
use crate::error::GraphError;
use crate::graph::{CyclePolicy, GraphView};
use crate::handler::{
    apply, decode, document, edge_entries, edges_from, encode, lone, node_entries, parse_line,
    render, render_all, replay, root_marker, Entry, SEPARATOR,
};
use crate::iterator::{lemma_visit_order, start_at, visit_order, Order};
use crate::node::NodeView;
use crate::reach::{lemma_reachable_is_visited, reachable};
use crate::text::{
    decimal, lemma_decimal, lemma_find_after_digits, lemma_lines_after_line, lemma_parse_decimal,
    lines, CARRIAGE_RETURN, NEWLINE, SPACE,
};

verus! {

/// What becomes of a graph when the entries are carried out one after the
/// other, up to the first that the graph refuses.
pub open spec fn run(entries: Seq<Entry>, graph: GraphView<()>) -> Result<GraphView<()>, GraphError>
    decreases entries.len(),
{
    if entries.len() == 0 {
        Ok(graph)
    } else {
        match apply(graph, entries.first()) {
            Ok(next) => run(entries.drop_first(), next),
            Err(error) => Err(error),
        }
    }
}

/// Every entry stands in its section: edges after a separator, everything
/// else before it.
pub open spec fn sectioned(entries: Seq<Entry>, in_edges: bool) -> bool
    decreases entries.len(),
{
    if entries.len() == 0 {
        true
    } else {
        &&& (entries.first() is Edge) == in_edges
        &&& sectioned(entries.drop_first(), in_edges || entries.first() is Separator)
    }
}

/// A rendered line holds no newline and does not end in a carriage return.
pub proof fn lemma_render_shape(entry: Entry)
    ensures
        forall|i: int| 0 <= i < render(entry).len() ==> render(entry)[i] != NEWLINE,
        render(entry).len() > 0,
        render(entry).last() != CARRIAGE_RETURN,
{
    match entry {
        Entry::Node { id, root } => {
            lemma_decimal(id as nat);
        },
        Entry::Separator => {},
        Entry::Edge { from, to } => {
            lemma_decimal(from as nat);
            lemma_decimal(to as nat);
        },
    }
}

/// A rendered line, read in the section that the entry belongs to, says
/// what was rendered.
pub proof fn lemma_parse_render(entry: Entry, in_edges: bool)
    requires
        (entry is Edge) == in_edges,
    ensures
        parse_line(render(entry), in_edges) == Some(entry),
{
    let line = render(entry);
    match entry {
        Entry::Node { id, root } => {
            let digits = decimal(id as nat);
            lemma_decimal(id as nat);
            lemma_parse_decimal(id);
            lemma_find_after_digits(digits, SPACE, root_marker());
            assert(line[0] == digits[0]);
            assert(line != seq![SEPARATOR]);
            if root {
                assert(line.take(digits.len() as int) =~= digits);
                assert(line.skip(digits.len() as int + 1) =~= root_marker());
            } else {
                assert(line.take(digits.len() as int) =~= digits);
            }
        },
        Entry::Separator => {},
        Entry::Edge { from, to } => {
            let digits = decimal(from as nat);
            lemma_decimal(from as nat);
            lemma_parse_decimal(from);
            lemma_parse_decimal(to);
            lemma_find_after_digits(digits, SPACE, decimal(to as nat));
            assert(line.take(digits.len() as int) =~= digits);
            assert(line.skip(digits.len() as int + 1) =~= decimal(to as nat));
        },
    }
}

/// The text of some entries begins with the line of the first.
pub proof fn lemma_render_all_first(entry: Entry, rest: Seq<Entry>)
    ensures
        render_all(seq![entry] + rest) == render(entry) + seq![NEWLINE] + render_all(rest),
    decreases rest.len(),
{
    let all = seq![entry] + rest;
    if rest.len() == 0 {
        assert(all.drop_last() =~= Seq::<Entry>::empty());
        assert(render_all(all.drop_last()) =~= Seq::<u8>::empty());
        assert(all.last() == entry);
        assert(render_all(all) =~= render(entry) + seq![NEWLINE] + render_all(rest));
    } else {
        lemma_render_all_first(entry, rest.drop_last());
        assert(all.drop_last() =~= seq![entry] + rest.drop_last());
        assert(render_all(all) =~= render(entry) + seq![NEWLINE] + render_all(rest));
    }
}

/// The lines of the text of some entries are the lines of the entries.
pub proof fn lemma_lines_render_all(entries: Seq<Entry>)
    ensures
        lines(render_all(entries)) == entries.map_values(|entry: Entry| render(entry)),
    decreases entries.len(),
{
    let rendered = entries.map_values(|entry: Entry| render(entry));
    if entries.len() == 0 {
        assert(lines(render_all(entries)) =~= rendered);
    } else {
        let first = entries.first();
        let rest = entries.drop_first();
        assert(entries =~= seq![first] + rest);
        lemma_render_all_first(first, rest);
        lemma_render_shape(first);
        lemma_lines_after_line(render(first), render_all(rest));
        lemma_lines_render_all(rest);
        assert(seq![render(first)] + rest.map_values(|entry: Entry| render(entry)) =~= rendered);
    }
}

/// Reading and carrying out the lines of entries that stand in their
/// sections is carrying out the entries.
pub proof fn lemma_replay_rendered(entries: Seq<Entry>, graph: GraphView<()>, in_edges: bool)
    requires
        sectioned(entries, in_edges),
    ensures
        replay(entries.map_values(|entry: Entry| render(entry)), graph, in_edges) == run(
            entries,
            graph,
        ),
    decreases entries.len(),
{
    let rendered = entries.map_values(|entry: Entry| render(entry));
    if entries.len() > 0 {
        let first = entries.first();
        let rest = entries.drop_first();
        lemma_parse_render(first, in_edges);
        assert(rendered.first() == render(first));
        assert(rendered.drop_first() =~= rest.map_values(|entry: Entry| render(entry)));
        if let Ok(next) = apply(graph, first) {
            lemma_replay_rendered(rest, next, in_edges || first is Separator);
        }
    }
}

/// Carrying out two runs of entries in a row is carrying out the first and
/// then, on what came of it, the second.
pub proof fn lemma_run_concat(first: Seq<Entry>, second: Seq<Entry>, graph: GraphView<()>)
    ensures
        run(first + second, graph) == match run(first, graph) {
            Ok(next) => run(second, next),
            Err(error) => Err(error),
        },
    decreases first.len(),
{
    if first.len() == 0 {
        assert(first + second =~= second);
    } else {
        assert((first + second).first() == first.first());
        assert((first + second).drop_first() =~= first.drop_first() + second);
        if let Ok(next) = apply(graph, first.first()) {
            lemma_run_concat(first.drop_first(), second, next);
        }
    }
}

/// `id` is one of the first `n` identifiers of `order`.
spec fn among(order: Seq<usize>, n: int, id: usize) -> bool {
    exists|i: int| 0 <= i < n && i < order.len() && #[trigger] order[i] == id
}

/// The graph as it stands while a document is carried out: the first `n`
/// nodes of `order` are in, the first `k` of them have all their edges, and
/// the next one has the first `j` of its edges.
spec fn partial(
    order: Seq<usize>,
    adjacency: Map<usize, Seq<usize>>,
    root: usize,
    n: int,
    k: int,
    j: int,
) -> GraphView<()> {
    GraphView {
        nodes: Map::new(
            |id: usize| among(order, n, id),
            |id: usize|
                NodeView {
                    index: id,
                    value: (),
                    edges: if among(order, k, id) {
                        adjacency[id]
                    } else if 0 <= k < order.len() && order[k] == id {
                        adjacency[id].take(j)
                    } else {
                        Seq::empty()
                    },
                },
        ),
        root: if among(order, n, root) {
            Some(root)
        } else {
            None
        },
        policy: CyclePolicy::Unrestricted,
    }
}

proof fn lemma_among_step(order: Seq<usize>, n: int)
    requires
        0 <= n < order.len(),
        order.no_duplicates(),
    ensures
        !among(order, n, order[n]),
        forall|id: usize| among(order, n + 1, id) <==> among(order, n, id) || order[n] == id,
{
    assert forall|id: usize| among(order, n + 1, id) <==> among(order, n, id) || order[n]
        == id by {
        if among(order, n + 1, id) {
            let i = choose|i: int| 0 <= i < n + 1 && i < order.len() && #[trigger] order[i] == id;
            if i < n {
                assert(among(order, n, id));
            }
        }
        if among(order, n, id) {
            let i = choose|i: int| 0 <= i < n && i < order.len() && #[trigger] order[i] == id;
            assert(among(order, n + 1, id));
        }
        if order[n] == id {
            assert(among(order, n + 1, id));
        }
    }
}

/// Carrying out the entry of the next node puts that node in.
proof fn lemma_node_step(order: Seq<usize>, adjacency: Map<usize, Seq<usize>>, root: usize, n: int)
    requires
        0 <= n < order.len(),
        order.no_duplicates(),
    ensures
        apply(
            partial(order, adjacency, root, n, 0, 0),
            Entry::Node { id: order[n], root: order[n] == root },
        ) == Ok::<GraphView<()>, GraphError>(partial(order, adjacency, root, n + 1, 0, 0)),
{
    let id = order[n];
    let before = partial(order, adjacency, root, n, 0, 0);
    let after = partial(order, adjacency, root, n + 1, 0, 0);
    lemma_among_step(order, n);
    assert(!before.contains(id));
    assert(adjacency[id].take(0) =~= Seq::<usize>::empty());
    assert(after.nodes[id] == lone(id));
    assert(before.with_node(lone(id)).nodes =~= after.nodes);
}

/// Carrying out the entry of the next edge appends that edge.
proof fn lemma_edge_step(
    order: Seq<usize>,
    adjacency: Map<usize, Seq<usize>>,
    root: usize,
    k: int,
    j: int,
)
    requires
        0 <= k < order.len(),
        order.no_duplicates(),
        0 <= j < adjacency[order[k]].len(),
        adjacency[order[k]].no_duplicates(),
        adjacency[order[k]][j] != order[k],
        among(order, order.len() as int, adjacency[order[k]][j]),
    ensures
        apply(
            partial(order, adjacency, root, order.len() as int, k, j),
            Entry::Edge { from: order[k], to: adjacency[order[k]][j] },
        ) == Ok::<GraphView<()>, GraphError>(
            partial(order, adjacency, root, order.len() as int, k, j + 1),
        ),
{
    let from = order[k];
    let targets = adjacency[from];
    let to = targets[j];
    let before = partial(order, adjacency, root, order.len() as int, k, j);
    let after = partial(order, adjacency, root, order.len() as int, k, j + 1);
    lemma_among_step(order, k);
    assert(among(order, order.len() as int, from));
    assert(before.nodes[from].edges == targets.take(j));
    assert(!targets.take(j).contains(to)) by {
        if targets.take(j).contains(to) {
            let i = choose|i: int| 0 <= i < targets.take(j).len() && targets.take(j)[i] == to;
            assert(targets[i] == targets[j]);
        }
    }
    assert(targets.take(j + 1) =~= targets.take(j).push(to));
    assert(before.with_edge(from, to).nodes =~= after.nodes);
}

/// A node that has all its edges is done, and the next node begins with none.
proof fn lemma_node_done(order: Seq<usize>, adjacency: Map<usize, Seq<usize>>, root: usize, k: int)
    requires
        0 <= k < order.len(),
        order.no_duplicates(),
    ensures
        partial(
            order,
            adjacency,
            root,
            order.len() as int,
            k,
            adjacency[order[k]].len() as int,
        ) == partial(order, adjacency, root, order.len() as int, k + 1, 0),
{
    let len = order.len() as int;
    let full = adjacency[order[k]].len() as int;
    let before = partial(order, adjacency, root, len, k, full);
    let after = partial(order, adjacency, root, len, k + 1, 0);
    lemma_among_step(order, k);
    assert(adjacency[order[k]].take(full) =~= adjacency[order[k]]);
    assert forall|id: usize| before.nodes.contains_key(id) implies before.nodes[id]
        == after.nodes[id] by {
        if k + 1 < order.len() && order[k + 1] == id {
            assert(adjacency[id].take(0) =~= Seq::<usize>::empty());
            lemma_among_step(order, k + 1);
        }
    }
    assert(before.nodes =~= after.nodes);
}

/// Carrying out the entries of the first `n` nodes puts these nodes in.
proof fn lemma_run_nodes(order: Seq<usize>, adjacency: Map<usize, Seq<usize>>, root: usize, n: int)
    requires
        0 <= n <= order.len(),
        order.no_duplicates(),
    ensures
        run(node_entries(order.take(n), root), partial(order, adjacency, root, 0, 0, 0)) == Ok::<
            GraphView<()>,
            GraphError,
        >(partial(order, adjacency, root, n, 0, 0)),
    decreases n,
{
    let start = partial(order, adjacency, root, 0, 0, 0);
    if n == 0 {
        assert(node_entries(order.take(0), root) =~= Seq::<Entry>::empty());
    } else {
        let entry = Entry::Node { id: order[n - 1], root: order[n - 1] == root };
        lemma_run_nodes(order, adjacency, root, n - 1);
        lemma_node_step(order, adjacency, root, n - 1);
        assert(node_entries(order.take(n), root) =~= node_entries(order.take(n - 1), root)
            + seq![entry]);
        lemma_run_concat(node_entries(order.take(n - 1), root), seq![entry], start);
        lemma_run_one(entry, partial(order, adjacency, root, n - 1, 0, 0));
    }
}

/// Carrying out one entry is applying it.
proof fn lemma_run_one(entry: Entry, graph: GraphView<()>)
    ensures
        run(seq![entry], graph) == apply(graph, entry),
{
    let entries = seq![entry];
    assert(entries.first() == entry);
    assert(entries.drop_first() =~= Seq::<Entry>::empty());
    if let Ok(next) = apply(graph, entry) {
        assert(run(entries.drop_first(), next) == Ok::<GraphView<()>, GraphError>(next));
    }
}

/// Carrying out the first `j` edge entries of a node appends these edges.
proof fn lemma_run_edges_from(
    graph: GraphView<()>,
    order: Seq<usize>,
    root: usize,
    k: int,
    j: int,
)
    requires
        graph.edges_sound(),
        order.no_duplicates(),
        forall|id: usize| graph.nodes.contains_key(id) <==> among(order, order.len() as int, id),
        0 <= k < order.len(),
        0 <= j <= graph.adjacency()[order[k]].len(),
    ensures
        run(
            edges_from(order[k], graph.adjacency()[order[k]].take(j)),
            partial(order, graph.adjacency(), root, order.len() as int, k, 0),
        ) == Ok::<GraphView<()>, GraphError>(
            partial(order, graph.adjacency(), root, order.len() as int, k, j),
        ),
    decreases j,
{
    let adjacency = graph.adjacency();
    let from = order[k];
    let targets = adjacency[from];
    let len = order.len() as int;
    let start = partial(order, adjacency, root, len, k, 0);
    assert(among(order, len, from));
    assert(graph.nodes.contains_key(from));
    assert(targets == graph.nodes[from].edges);
    if j == 0 {
        assert(edges_from(from, targets.take(0)) =~= Seq::<Entry>::empty());
    } else {
        let to = targets[j - 1];
        let entry = Entry::Edge { from, to };
        lemma_run_edges_from(graph, order, root, k, j - 1);
        assert(graph.nodes.contains_key(to));
        assert(to != from) by {
            if to == from {
                assert(targets.contains(from));
            }
        }
        lemma_edge_step(order, adjacency, root, k, j - 1);
        assert(edges_from(from, targets.take(j)) =~= edges_from(from, targets.take(j - 1))
            + seq![entry]);
        lemma_run_concat(edges_from(from, targets.take(j - 1)), seq![entry], start);
        lemma_run_one(entry, partial(order, adjacency, root, len, k, j - 1));
    }
}

/// Carrying out the edge entries of the first `k` nodes gives these nodes
/// their edges.
proof fn lemma_run_edges(graph: GraphView<()>, order: Seq<usize>, root: usize, k: int)
    requires
        graph.edges_sound(),
        order.no_duplicates(),
        forall|id: usize| graph.nodes.contains_key(id) <==> among(order, order.len() as int, id),
        0 <= k <= order.len(),
    ensures
        run(
            edge_entries(order.take(k), graph.adjacency()),
            partial(order, graph.adjacency(), root, order.len() as int, 0, 0),
        ) == Ok::<GraphView<()>, GraphError>(
            partial(order, graph.adjacency(), root, order.len() as int, k, 0),
        ),
    decreases k,
{
    let adjacency = graph.adjacency();
    let len = order.len() as int;
    let start = partial(order, adjacency, root, len, 0, 0);
    if k == 0 {
        assert(order.take(0) =~= Seq::<usize>::empty());
    } else {
        let from = order[k - 1];
        let targets = adjacency[from];
        lemma_run_edges(graph, order, root, k - 1);
        lemma_run_edges_from(graph, order, root, k - 1, targets.len() as int);
        lemma_node_done(order, adjacency, root, k - 1);
        assert(targets.take(targets.len() as int) =~= targets);
        assert(order.take(k).drop_last() =~= order.take(k - 1));
        assert(order.take(k).last() == from);
        lemma_run_concat(
            edge_entries(order.take(k - 1), adjacency),
            edges_from(from, targets),
            start,
        );
    }
}

proof fn lemma_sectioned_edges(entries: Seq<Entry>)
    requires
        forall|i: int| 0 <= i < entries.len() ==> entries[i] is Edge,
    ensures
        sectioned(entries, true),
    decreases entries.len(),
{
    if entries.len() > 0 {
        lemma_sectioned_edges(entries.drop_first());
    }
}

proof fn lemma_sectioned_nodes(nodes: Seq<Entry>, rest: Seq<Entry>)
    requires
        forall|i: int| 0 <= i < nodes.len() ==> nodes[i] is Node,
        sectioned(rest, false),
    ensures
        sectioned(nodes + rest, false),
    decreases nodes.len(),
{
    if nodes.len() == 0 {
        assert(nodes + rest =~= rest);
    } else {
        lemma_sectioned_nodes(nodes.drop_first(), rest);
        assert((nodes + rest).first() == nodes[0]);
        assert((nodes + rest).drop_first() =~= nodes.drop_first() + rest);
    }
}

proof fn lemma_edge_entries_are_edges(order: Seq<usize>, adjacency: Map<usize, Seq<usize>>)
    ensures
        forall|i: int|
            0 <= i < edge_entries(order, adjacency).len() ==> edge_entries(
                order,
                adjacency,
            )[i] is Edge,
    decreases order.len(),
{
    if order.len() > 0 {
        lemma_edge_entries_are_edges(order.drop_last(), adjacency);
    }
}

/// Every node of the graph can be reached from `root` along edges.
pub open spec fn spans<T>(graph: GraphView<T>, root: usize) -> bool {
    forall|id: usize| #[trigger]
        graph.nodes.contains_key(id) ==> reachable(graph.adjacency(), root, id)
}

/// Writing a graph and reading the text back gives a graph with the same
/// nodes, the same root and, node by node, the same edges in the same order.
///
/// This is stated of graphs whose root is a node from which every node can
/// be reached and whose edges are sound: what cannot be reached is not
/// written, and an edge that `add_edge` would refuse is refused when it is
/// read.
pub proof fn lemma_round_trip<T>(graph: GraphView<T>, root: usize)
    requires
        graph.wf(),
        graph.root == Some(root),
        graph.contains(root),
        graph.edges_sound(),
        spans(graph, root),
    ensures
        decode(encode(graph.topology(), root)) == Ok::<GraphView<()>, GraphError>(
            GraphView { policy: CyclePolicy::Unrestricted, ..graph.topology() },
        ),
{
    let shape = graph.topology();
    graph.lemma_topology();
    let adjacency = shape.adjacency();
    let order = visit_order(Order::BreadthFirst, adjacency, start_at(root));
    let len = order.len() as int;
    lemma_visit_order(Order::BreadthFirst, adjacency, start_at(root));
    assert forall|id: usize| shape.nodes.contains_key(id) <==> among(order, len, id) by {
        if shape.nodes.contains_key(id) {
            assert(graph.nodes.contains_key(id));
            lemma_reachable_is_visited(Order::BreadthFirst, adjacency, root, id);
            let i = choose|i: int| 0 <= i < order.len() && order[i] == id;
            assert(order[i] == id);
        }
        if among(order, len, id) {
            let i = choose|i: int| 0 <= i < len && i < order.len() && #[trigger] order[i] == id;
            assert(adjacency.contains_key(order[i]));
        }
    }
    assert(shape.edges_sound()) by {
        assert forall|id: usize| #[trigger] shape.nodes.contains_key(id) implies {
            &&& shape.nodes[id].edges.no_duplicates()
            &&& !shape.nodes[id].edges.contains(id)
            &&& forall|i: int|
                0 <= i < shape.nodes[id].edges.len() ==> shape.nodes.contains_key(
                    #[trigger] shape.nodes[id].edges[i],
                )
        } by {
            assert(graph.nodes.contains_key(id));
            assert(shape.nodes[id].edges == graph.nodes[id].edges);
        }
    }
    let nodes = node_entries(order, root);
    let edges = edge_entries(order, adjacency);
    let tail = seq![Entry::Separator] + edges;
    let entries = document(shape, root);
    assert(entries =~= nodes + tail);

    lemma_edge_entries_are_edges(order, adjacency);
    lemma_sectioned_edges(edges);
    assert(tail.first() == Entry::Separator);
    assert(tail.drop_first() =~= edges);
    lemma_sectioned_nodes(nodes, tail);
    lemma_lines_render_all(entries);

    let blank = GraphView::<()> {
        nodes: Map::empty(),
        root: None,
        policy: CyclePolicy::Unrestricted,
    };
    let start = partial(order, adjacency, root, 0, 0, 0);
    assert(start.nodes =~= blank.nodes);
    assert(!among(order, 0, root));
    assert(start == blank);
    lemma_replay_rendered(entries, blank, false);

    let filled = partial(order, adjacency, root, len, 0, 0);
    let linked = partial(order, adjacency, root, len, len, 0);
    assert(order.take(len) =~= order);
    lemma_run_nodes(order, adjacency, root, len);
    lemma_run_edges(shape, order, root, len);
    lemma_run_concat(nodes, tail, blank);
    lemma_run_concat(seq![Entry::Separator], edges, filled);
    lemma_run_one(Entry::Separator, filled);
    assert(run(entries, blank) == Ok::<GraphView<()>, GraphError>(linked));

    let expected = GraphView { policy: CyclePolicy::Unrestricted, ..shape };
    assert forall|id: usize| linked.nodes.contains_key(id) implies linked.nodes[id]
        == expected.nodes[id] by {
        assert(shape.nodes.contains_key(id));
        assert(graph.nodes.contains_key(id));
    }
    assert(linked.nodes =~= expected.nodes);
    assert(among(order, len, root));
}

/// What a graph that is read from text can be relied on for: it accepts any
/// cycle, its root is one of its nodes, and its edges are sound.
pub open spec fn consistent(graph: GraphView<()>) -> bool {
    &&& graph.wf()
    &&& graph.edges_sound()
    &&& graph.policy == CyclePolicy::Unrestricted
    &&& graph.root matches Some(root) ==> graph.contains(root)
}

/// Carrying out an entry on a consistent graph leaves it consistent.
proof fn lemma_apply_consistent(graph: GraphView<()>, entry: Entry)
    requires
        consistent(graph),
    ensures
        apply(graph, entry) matches Ok(next) ==> consistent(next),
{
    if let Ok(next) = apply(graph, entry) {
        match entry {
            Entry::Node { id, root } => {
                assert(next.nodes.dom() =~= graph.nodes.dom().insert(id));
                assert forall|other: usize| #[trigger] next.nodes.contains_key(other) implies {
                    &&& next.nodes[other].edges.no_duplicates()
                    &&& !next.nodes[other].edges.contains(other)
                    &&& forall|i: int|
                        0 <= i < next.nodes[other].edges.len() ==> next.nodes.contains_key(
                            #[trigger] next.nodes[other].edges[i],
                        )
                } by {
                    if other != id {
                        assert(graph.nodes.contains_key(other));
                    }
                }
            },
            Entry::Separator => {},
            Entry::Edge { from, to } => {
                let targets = graph.nodes[from].edges;
                assert(graph.nodes.contains_key(from));
                assert(next.nodes.dom() =~= graph.nodes.dom());
                assert forall|other: usize| #[trigger] next.nodes.contains_key(other) implies {
                    &&& next.nodes[other].edges.no_duplicates()
                    &&& !next.nodes[other].edges.contains(other)
                    &&& forall|i: int|
                        0 <= i < next.nodes[other].edges.len() ==> next.nodes.contains_key(
                            #[trigger] next.nodes[other].edges[i],
                        )
                } by {
                    assert(graph.nodes.contains_key(other));
                    if other == from {
                        let longer = targets.push(to);
                        assert(next.nodes[from].edges == longer);
                        assert forall|i: int, j: int|
                            0 <= i < longer.len() && 0 <= j < longer.len() && i != j implies longer[i]
                            != longer[j] by {
                            if i < targets.len() {
                                assert(targets.contains(targets[i]));
                            }
                            if j < targets.len() {
                                assert(targets.contains(targets[j]));
                            }
                        }
                        if longer.contains(from) {
                            let i = choose|i: int| 0 <= i < longer.len() && longer[i] == from;
                            assert(targets[i] == from);
                        }
                        assert forall|i: int| 0 <= i < longer.len() implies next.nodes.contains_key(
                            #[trigger] longer[i],
                        ) by {
                            if i < targets.len() {
                                assert(graph.nodes.contains_key(targets[i]));
                            }
                        }
                    }
                }
            },
        }
    }
}

/// Reading lines into a consistent graph leaves it consistent.
proof fn lemma_replay_consistent(lines: Seq<Seq<u8>>, graph: GraphView<()>, in_edges: bool)
    requires
        consistent(graph),
    ensures
        replay(lines, graph, in_edges) matches Ok(read) ==> consistent(read),
    decreases lines.len(),
{
    if lines.len() > 0 {
        if let Some(entry) = parse_line(lines.first(), in_edges) {
            lemma_apply_consistent(graph, entry);
            if let Ok(next) = apply(graph, entry) {
                lemma_replay_consistent(lines.drop_first(), next, in_edges || entry is Separator);
            }
        }
    }
}

/// A graph that is read from text is consistent, whatever the text.
pub proof fn lemma_decode_consistent(text: Seq<u8>)
    ensures
        decode(text) matches Ok(read) ==> consistent(read),
{
    let blank = GraphView::<()> {
        nodes: Map::empty(),
        root: None,
        policy: CyclePolicy::Unrestricted,
    };
    lemma_replay_consistent(lines(text), blank, false);
}

} // verus!
