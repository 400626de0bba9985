use vstd::prelude::*;
use crate::error::GraphError;
use crate::graph::{CyclePolicy, Graph, GraphView};
use crate::iterator::{lemma_step, lemma_step_sees_more, start_at, unseen, visit_order, Order};
use crate::node::{Node, NodeView};
use crate::text::{
    decimal, find, find_byte, lines, parse_id, push_decimal, read_id, without_carriage_return,
    CARRIAGE_RETURN, NEWLINE, SPACE,
};

verus! {

/// The byte that alone makes up the line between nodes and edges.
pub const SEPARATOR: u8 = 35;

/// What one line of serialized text says.
#[derive(Clone, Copy, Debug, PartialEq, Eq, Structural)]
pub enum Entry {
    /// There is a node `id`, and it is the root if `root` is set.
    Node { id: usize, root: bool },
    /// The nodes end here and the edges begin.
    Separator,
    /// There is an edge from `from` to `to`.
    Edge { from: usize, to: usize },
}

/// The word that marks the root's line: `Root`.
pub open spec fn root_marker() -> Seq<u8> {
    seq![82u8, 111u8, 111u8, 116u8]
}

/// The line that states `entry`, without the newline that ends it.
pub open spec fn render(entry: Entry) -> Seq<u8> {
    match entry {
        Entry::Node { id, root } => if root {
            decimal(id as nat) + seq![SPACE] + root_marker()
        } else {
            decimal(id as nat)
        },
        Entry::Separator => seq![SEPARATOR],
        Entry::Edge { from, to } => decimal(from as nat) + seq![SPACE] + decimal(to as nat),
    }
}

/// The text that states `entries`, one line each.
pub open spec fn render_all(entries: Seq<Entry>) -> Seq<u8>
    decreases entries.len(),
{
    if entries.len() == 0 {
        Seq::empty()
    } else {
        render_all(entries.drop_last()) + render(entries.last()) + seq![NEWLINE]
    }
}

/// What a line says, if it has the shape that its section of the text asks
/// for. Among the nodes a line is the separator, an identifier, or an
/// identifier, one space and the root marker. Among the edges a line is two
/// identifiers with one space between them.
pub open spec fn parse_line(line: Seq<u8>, in_edges: bool) -> Option<Entry> {
    let gap = find(line, SPACE);
    let head = parse_id(line.take(gap));
    let tail = line.skip(gap + 1);
    if in_edges {
        match (head, parse_id(tail)) {
            (Some(from), Some(to)) => if gap < line.len() {
                Some(Entry::Edge { from, to })
            } else {
                None
            },
            _ => None,
        }
    } else if line == seq![SEPARATOR] {
        Some(Entry::Separator)
    } else {
        match head {
            Some(id) => if gap == line.len() {
                Some(Entry::Node { id, root: false })
            } else if tail == root_marker() {
                Some(Entry::Node { id, root: true })
            } else {
                None
            },
            None => None,
        }
    }
}

/// A node without payload and without edges.
pub open spec fn lone(id: usize) -> NodeView<()> {
    NodeView { index: id, value: (), edges: Seq::empty() }
}

/// What becomes of a graph when an entry is carried out on it.
pub open spec fn apply(graph: GraphView<()>, entry: Entry) -> Result<GraphView<()>, GraphError> {
    match entry {
        Entry::Node { id, root } => match graph.add_node_outcome(lone(id)) {
            Ok(_) => Ok(
                GraphView {
                    root: if root {
                        Some(id)
                    } else {
                        graph.root
                    },
                    ..graph.with_node(lone(id))
                },
            ),
            Err(error) => Err(error),
        },
        Entry::Separator => Ok(graph),
        Entry::Edge { from, to } => match graph.add_edge_outcome(from, to) {
            Ok(_) => Ok(graph.with_edge(from, to)),
            Err(error) => Err(error),
        },
    }
}

/// What becomes of a graph when the lines are read and carried out one
/// after the other, up to the first that is malformed or refused.
pub open spec fn replay(lines: Seq<Seq<u8>>, graph: GraphView<()>, in_edges: bool) -> Result<
    GraphView<()>,
    GraphError,
>
    decreases lines.len(),
{
    if lines.len() == 0 {
        Ok(graph)
    } else {
        match parse_line(lines.first(), in_edges) {
            None => Err(GraphError::MalformedInput),
            Some(entry) => match apply(graph, entry) {
                Ok(next) => replay(lines.drop_first(), next, in_edges || entry is Separator),
                Err(error) => Err(error),
            },
        }
    }
}

/// The graph that a text describes, without payloads, or why there is none.
pub open spec fn decode(text: Seq<u8>) -> Result<GraphView<()>, GraphError> {
    replay(
        lines(text),
        GraphView { nodes: Map::empty(), root: None, policy: CyclePolicy::Unrestricted },
        false,
    )
}

/// One node entry for each identifier, in order.
pub open spec fn node_entries(order: Seq<usize>, root: usize) -> Seq<Entry> {
    order.map_values(|id: usize| Entry::Node { id, root: id == root })
}

/// One edge entry for each target, in order.
pub open spec fn edges_from(from: usize, targets: Seq<usize>) -> Seq<Entry> {
    targets.map_values(|to: usize| Entry::Edge { from, to })
}

/// The edge entries of each identifier in turn.
pub open spec fn edge_entries(order: Seq<usize>, adjacency: Map<usize, Seq<usize>>) -> Seq<Entry>
    decreases order.len(),
{
    if order.len() == 0 {
        Seq::empty()
    } else {
        edge_entries(order.drop_last(), adjacency) + edges_from(
            order.last(),
            adjacency[order.last()],
        )
    }
}

/// The entries that describe what can be reached from `root`: the nodes in
/// breadth-first order, the separator, and the edges of each node, node by
/// node in the same order and edge by edge as the node lists them.
pub open spec fn document(graph: GraphView<()>, root: usize) -> Seq<Entry> {
    let order = visit_order(Order::BreadthFirst, graph.adjacency(), start_at(root));
    node_entries(order, root) + seq![Entry::Separator] + edge_entries(order, graph.adjacency())
}

/// The text that describes what can be reached from `root`.
pub open spec fn encode(graph: GraphView<()>, root: usize) -> Seq<u8> {
    render_all(document(graph, root))
}

/// Appends the line that states `entry`.
fn push_entry(out: &mut Vec<u8>, entry: Entry)
    ensures
        final(out)@ == old(out)@ + render(entry) + seq![NEWLINE],
{
    match entry {
        Entry::Node { id, root } => {
            push_decimal(out, id);
            if root {
                out.push(SPACE);
                out.push(82u8);
                out.push(111u8);
                out.push(111u8);
                out.push(116u8);
            }
        },
        Entry::Separator => {
            out.push(SEPARATOR);
        },
        Entry::Edge { from, to } => {
            push_decimal(out, from);
            out.push(SPACE);
            push_decimal(out, to);
        },
    }
    out.push(NEWLINE);
    assert(out@ =~= old(out)@ + render(entry) + seq![NEWLINE]);
}

/// Whether the bytes from `start` up to `stop` are the root marker.
fn is_root_marker(text: &[u8], start: usize, stop: usize) -> (is: bool)
    requires
        start <= stop <= text.len(),
    ensures
        is == (text@.subrange(start as int, stop as int) == root_marker()),
{
    let ghost word = text@.subrange(start as int, stop as int);
    assert(root_marker().len() == 4);
    if stop - start != 4 {
        return false;
    }
    let is = text[start] == 82u8 && text[start + 1] == 111u8 && text[start + 2] == 111u8 && text[
        start + 3] == 116u8;
    proof {
        assert(word[0] == text@[start as int]);
        assert(word[1] == text@[start + 1]);
        assert(word[2] == text@[start + 2]);
        assert(word[3] == text@[start + 3]);
        if is {
            assert(word =~= root_marker());
        }
    }
    is
}

/// Reads what the line from `start` up to `stop` says.
fn read_entry(text: &[u8], start: usize, stop: usize, in_edges: bool) -> (entry: Option<Entry>)
    requires
        start <= stop <= text.len(),
    ensures
        entry == parse_line(text@.subrange(start as int, stop as int), in_edges),
{
    let ghost line = text@.subrange(start as int, stop as int);
    let gap = find_byte(text, start, stop, SPACE);
    let head = read_id(text, start, gap);
    proof {
        assert(line.take(gap - start) =~= text@.subrange(start as int, gap as int));
        if gap < stop {
            assert(line.skip(gap - start + 1) =~= text@.subrange(gap + 1, stop as int));
        }
    }
    if in_edges {
        if gap == stop {
            return None;
        }
        let tail = read_id(text, gap + 1, stop);
        match (head, tail) {
            (Some(from), Some(to)) => Some(Entry::Edge { from, to }),
            _ => None,
        }
    } else if stop - start == 1 && text[start] == SEPARATOR {
        assert(line =~= seq![SEPARATOR]);
        Some(Entry::Separator)
    } else {
        assert(line != seq![SEPARATOR]) by {
            if line == seq![SEPARATOR] {
                assert(line.len() == 1);
                assert(line[0] == SEPARATOR);
            }
        }
        match head {
            Some(id) => {
                if gap == stop {
                    Some(Entry::Node { id, root: false })
                } else if is_root_marker(text, gap + 1, stop) {
                    Some(Entry::Node { id, root: true })
                } else {
                    None
                }
            },
            None => None,
        }
    }
}

/// Every payload of the graph is one that `T::default` may return.
pub open spec fn all_default<T: Default>(graph: GraphView<T>) -> bool {
    forall|id: usize| #[trigger]
        graph.nodes.contains_key(id) ==> call_ensures(T::default, (), graph.nodes[id].value)
}

/// Finds the line that begins at `pos`: it ends before `stop`, and what
/// follows it begins at `next`.
fn line_at(text: &[u8], pos: usize) -> (bounds: (usize, usize))
    requires
        pos < text.len(),
    ensures
        pos <= bounds.0 <= bounds.1 <= text.len(),
        pos < bounds.1,
        lines(text@.skip(pos as int)) == seq![text@.subrange(pos as int, bounds.0 as int)] + lines(
            text@.skip(bounds.1 as int),
        ),
{
    let ghost rest = text@.skip(pos as int);
    let end = find_byte(text, pos, text.len(), NEWLINE);
    let mut stop = end;
    if end < text.len() && stop > pos && text[stop - 1] == CARRIAGE_RETURN {
        stop -= 1;
    }
    let next = if end < text.len() {
        end + 1
    } else {
        end
    };
    proof {
        assert(text@.subrange(pos as int, text.len() as int) =~= rest);
        let line = text@.subrange(pos as int, stop as int);
        if end < text.len() {
            assert(rest.take(end - pos) =~= text@.subrange(pos as int, end as int));
            assert(line =~= without_carriage_return(rest.take(end - pos)));
            assert(rest.skip(end - pos + 1) =~= text@.skip(next as int));
        } else {
            assert(line =~= rest);
            assert(lines(text@.skip(next as int)) =~= Seq::<Seq<u8>>::empty());
        }
    }
    (stop, next)
}

/// Carries out one entry on a graph whose payloads are all default.
fn carry_out<T: Default>(graph: &mut Graph<T>, entry: Entry) -> (result: Result<(), GraphError>)
    requires
        old(graph).wf(),
        all_default(old(graph)@),
    ensures
        final(graph).wf(),
        all_default(final(graph)@),
        match apply(old(graph)@.topology(), entry) {
            Ok(next) => result is Ok && final(graph)@.topology() == next,
            Err(error) => result == Err::<(), GraphError>(error),
        },
{
    let ghost before = graph@;
    proof {
        graph.lemma_view_wf();
        before.lemma_topology();
    }
    match entry {
        Entry::Node { id, root } => {
            let node = Node::new(id, T::default(), None);
            proof {
                before.lemma_topology_add_node(node@);
                assert(crate::graph::bare(node@) == lone(id));
            }
            match graph.add_node(node) {
                Ok(_) => {},
                Err(error) => {
                    return Err(error);
                },
            }
            if root {
                let _ = graph.set_root(Some(id));
            }
            Ok(())
        },
        Entry::Separator => Ok(()),
        Entry::Edge { from, to } => {
            proof {
                if before.contains(from) {
                    before.lemma_topology_add_edge(from, to);
                }
            }
            graph.add_edge(from, to)
        },
    }
}

/// Writes graphs as text and reads them back.
pub struct GraphHandler;

impl GraphHandler {
    /// A handler. It holds nothing: the text format is fixed.
    pub fn new() -> (handler: Self) {
        GraphHandler
    }

    /// Writes the part of the graph that can be reached from its root as
    /// text. Payloads are not written.
    pub fn serialize<T>(&self, graph: &Graph<T>) -> (written: Result<Vec<u8>, GraphError>)
        requires
            graph.wf(),
        ensures
            match graph@.root {
                Some(root) => written is Ok && written->Ok_0@ == encode(graph@.topology(), root),
                None => written == Err::<Vec<u8>, GraphError>(GraphError::NoRoot),
            },
    {
        let root = match graph.root() {
            Some(root) => root,
            None => {
                return Err(GraphError::NoRoot);
            },
        };
        let mut iter = match graph.iterator() {
            Ok(iter) => iter,
            Err(error) => {
                return Err(error);
            },
        };
        proof {
            graph.lemma_view_wf();
            graph@.lemma_topology();
        }
        let ghost adjacency = graph@.adjacency();
        let ghost whole = visit_order(Order::BreadthFirst, adjacency, start_at(root));
        let mut out: Vec<u8> = Vec::new();
        let mut order: Vec<usize> = Vec::new();
        loop
            invariant
                graph.wf(),
                adjacency == graph@.adjacency(),
                adjacency.dom().finite(),
                whole == order@ + visit_order(Order::BreadthFirst, adjacency, iter@),
                forall|i: int| 0 <= i < order@.len() ==> graph@.contains(#[trigger] order@[i]),
                out@ == render_all(node_entries(order@, root)),
            ensures
                whole == order@,
            decreases unseen(adjacency, iter@),
        {
            let ghost state = iter@;
            proof {
                lemma_step(Order::BreadthFirst, adjacency, state);
                lemma_step_sees_more(Order::BreadthFirst, adjacency, state);
            }
            match iter.next_breadth_search(graph) {
                Some(id) => {
                    let ghost before = order@;
                    order.push(id);
                    push_entry(&mut out, Entry::Node { id, root: id == root });
                    proof {
                        assert(whole =~= order@ + visit_order(
                            Order::BreadthFirst,
                            adjacency,
                            iter@,
                        ));
                        assert(node_entries(order@, root).drop_last() =~= node_entries(
                            before,
                            root,
                        ));
                    }
                },
                None => {
                    assert(whole =~= order@);
                    break ;
                },
            }
        }
        push_entry(&mut out, Entry::Separator);
        let ghost head = node_entries(order@, root) + seq![Entry::Separator];
        assert(out@ == render_all(head)) by {
            assert(head.drop_last() =~= node_entries(order@, root));
        }
        let mut i: usize = 0;
        while i < order.len()
            invariant
                graph.wf(),
                adjacency == graph@.adjacency(),
                i <= order.len(),
                forall|i: int| 0 <= i < order@.len() ==> graph@.contains(#[trigger] order@[i]),
                out@ == render_all(head + edge_entries(order@.take(i as int), adjacency)),
            decreases order.len() - i,
        {
            let id = order[i];
            let ghost done = head + edge_entries(order@.take(i as int), adjacency);
            assert(graph@.contains(order@[i as int]));
            match graph.get_node(id) {
                Some(node) => {
                    let targets = node.connected();
                    assert(targets@ == adjacency[id]);
                    let mut k: usize = 0;
                    while k < targets.len()
                        invariant
                            k <= targets.len(),
                            out@ == render_all(done + edges_from(id, targets@.take(k as int))),
                        decreases targets.len() - k,
                    {
                        push_entry(&mut out, Entry::Edge { from: id, to: targets[k] });
                        proof {
                            let next = done + edges_from(id, targets@.take(k + 1));
                            assert(next.drop_last() =~= done + edges_from(
                                id,
                                targets@.take(k as int),
                            ));
                        }
                        k += 1;
                    }
                    proof {
                        assert(targets@.take(k as int) =~= targets@);
                        assert(order@.take(i + 1).drop_last() =~= order@.take(i as int));
                        assert(head + edge_entries(order@.take(i + 1), adjacency) =~= done
                            + edges_from(id, targets@));
                    }
                },
                None => {},
            }
            i += 1;
        }
        assert(order@.take(i as int) =~= order@);
        Ok(out)
    }

    /// Reads a graph from text. Every node gets the default payload. The
    /// graph accepts any cycle. The first line that is malformed or that the
    /// graph refuses ends the reading, and no graph is returned.
    pub fn deserialize<T: Default>(&self, text: &[u8]) -> (loaded: Result<Graph<T>, GraphError>)
        ensures
            match decode(text@) {
                Ok(topology) => {
                    &&& loaded is Ok
                    &&& loaded->Ok_0.wf()
                    &&& loaded->Ok_0@.topology() == topology
                    &&& all_default(loaded->Ok_0@)
                },
                Err(error) => loaded is Err && loaded->Err_0 == error,
            },
    {
        let mut graph: Graph<T> = Graph::new();
        let mut in_edges = false;
        let mut pos: usize = 0;
        proof {
            assert(text@.skip(0) =~= text@);
            assert(graph@.topology().nodes =~= Map::empty());
        }
        while pos < text.len()
            invariant
                pos <= text.len(),
                graph.wf(),
                all_default(graph@),
                replay(lines(text@.skip(pos as int)), graph@.topology(), in_edges) == decode(
                    text@,
                ),
            decreases text.len() - pos,
        {
            let (stop, next) = line_at(text, pos);
            let ghost rest = lines(text@.skip(pos as int));
            assert(rest.first() == text@.subrange(pos as int, stop as int));
            assert(rest.drop_first() =~= lines(text@.skip(next as int)));
            let entry = match read_entry(text, pos, stop, in_edges) {
                Some(entry) => entry,
                None => {
                    return Err(GraphError::MalformedInput);
                },
            };
            match carry_out(&mut graph, entry) {
                Ok(_) => {},
                Err(error) => {
                    return Err(error);
                },
            }
            match entry {
                Entry::Separator => {
                    in_edges = true;
                },
                _ => {},
            }
            pos = next;
        }
        proof {
            assert(lines(text@.skip(pos as int)) =~= Seq::<Seq<u8>>::empty());
        }
        Ok(graph)
    }
}

} // verus!
