use vstd::prelude::*;
use crate::text::{decimal, push_decimal};

verus! {

/// The mathematical content of a node: its identifier, its payload and the
/// identifiers its edges lead to, in the order in which they were added.
pub struct NodeView<T> {
    pub index: usize,
    pub value: T,
    pub edges: Seq<usize>,
}

/// The edge targets in decimal, with a comma and a space between them.
pub open spec fn listed(targets: Seq<usize>) -> Seq<u8>
    decreases targets.len(),
{
    if targets.len() == 0 {
        Seq::empty()
    } else if targets.len() == 1 {
        decimal(targets[0] as nat)
    } else {
        listed(targets.drop_last()) + seq![44u8, 32u8] + decimal(targets.last() as nat)
    }
}

/// A node as text for people to read, given its payload as text:
/// a line break, `Node` and the identifier; on the next line, after a tab,
/// `Value:` and the payload; on the next, after a tab, `Child nodes:` and the
/// edge targets in square brackets.
pub open spec fn description<T>(node: NodeView<T>, value: Seq<u8>) -> Seq<u8> {
    seq![10u8, 78u8, 111u8, 100u8, 101u8, 32u8] + decimal(node.index as nat)
        + seq![10u8, 9u8, 86u8, 97u8, 108u8, 117u8, 101u8, 58u8, 32u8] + value
        + seq![
        10u8,
        9u8,
        67u8,
        104u8,
        105u8,
        108u8,
        100u8,
        32u8,
        110u8,
        111u8,
        100u8,
        101u8,
        115u8,
        58u8,
        32u8,
        91u8,
    ] + listed(node.edges) + seq![93u8]
}

/// Appends a copy of `bytes` to `out`.
fn push_all(out: &mut Vec<u8>, bytes: &[u8])
    ensures
        final(out)@ == old(out)@ + bytes@,
{
    let mut i: usize = 0;
    while i < bytes.len()
        invariant
            i <= bytes.len(),
            out@ == old(out)@ + bytes@.take(i as int),
        decreases bytes.len() - i,
    {
        out.push(bytes[i]);
        assert(bytes@.take(i + 1) =~= bytes@.take(i as int).push(bytes@[i as int]));
        i += 1;
    }
    assert(bytes@.take(i as int) =~= bytes@);
}

/// A node of a graph. The identifier is chosen by the caller and has nothing
/// to do with where the graph stores the node.
pub struct Node<T> {
    pub index: usize,
    pub value: T,
    connected: Vec<usize>,
}

impl<T> View for Node<T> {
    type V = NodeView<T>;

    closed spec fn view(&self) -> NodeView<T> {
        NodeView { index: self.index, value: self.value, edges: self.connected@ }
    }
}

impl<T> Node<T> {
    /// Makes a node. Without initial edges the node starts unconnected.
    pub fn new(index: usize, value: T, connected: Option<Vec<usize>>) -> (node: Self)
        ensures
            node@ == (NodeView {
                index,
                value,
                edges: match connected {
                    Some(targets) => targets@,
                    None => Seq::<usize>::empty(),
                },
            }),
    {
        match connected {
            Some(targets) => Node { index, value, connected: targets },
            None => Node { index, value, connected: Vec::new() },
        }
    }

    /// The node's identifier.
    pub fn index(&self) -> (index: usize)
        ensures
            index == self@.index,
    {
        self.index
    }

    /// The node's payload.
    pub fn value(&self) -> (value: &T)
        ensures
            *value == self@.value,
    {
        &self.value
    }

    /// The targets of the node's outgoing edges.
    pub fn connected(&self) -> (targets: &Vec<usize>)
        ensures
            targets@ == self@.edges,
    {
        &self.connected
    }

    /// Whether one of the node's edges leads to `target`.
    pub fn points_to(&self, target: usize) -> (found: bool)
        ensures
            found == self@.edges.contains(target),
    {
        let mut i: usize = 0;
        while i < self.connected.len()
            invariant
                i <= self.connected.len(),
                forall|j: int| 0 <= j < i ==> self.connected[j] != target,
            decreases self.connected.len() - i,
        {
            if self.connected[i] == target {
                return true;
            }
            i += 1;
        }
        false
    }

    /// The node as text for people to read. The payload is shown as the
    /// text that the caller hands in for it.
    pub fn describe(&self, value: &[u8]) -> (text: Vec<u8>)
        ensures
            text@ == description(self@, value@),
    {
        let mut text: Vec<u8> = Vec::new();
        push_all(&mut text, &[10u8, 78u8, 111u8, 100u8, 101u8, 32u8]);
        push_decimal(&mut text, self.index);
        push_all(&mut text, &[10u8, 9u8, 86u8, 97u8, 108u8, 117u8, 101u8, 58u8, 32u8]);
        push_all(&mut text, value);
        push_all(
            &mut text,
            &[
                10u8,
                9u8,
                67u8,
                104u8,
                105u8,
                108u8,
                100u8,
                32u8,
                110u8,
                111u8,
                100u8,
                101u8,
                115u8,
                58u8,
                32u8,
                91u8,
            ],
        );
        let ghost head = text@;
        let mut i: usize = 0;
        while i < self.connected.len()
            invariant
                i <= self.connected.len(),
                text@ == head + listed(self.connected@.take(i as int)),
            decreases self.connected.len() - i,
        {
            if i > 0 {
                text.push(44u8);
                text.push(32u8);
            }
            push_decimal(&mut text, self.connected[i]);
            proof {
                let next = self.connected@.take(i + 1);
                assert(next.drop_last() =~= self.connected@.take(i as int));
                assert(next.last() == self.connected@[i as int]);
                assert(text@ =~= head + listed(next));
            }
            i += 1;
        }
        assert(self.connected@.take(i as int) =~= self.connected@);
        text.push(93u8);
        text
    }

    /// Mutable access to the edge list, for the graph that owns the node.
    pub(crate) fn connected_mut(&mut self) -> (targets: &mut Vec<usize>)
        ensures
            targets@ == old(self)@.edges,
            final(self)@ == (NodeView { edges: final(targets)@, ..old(self)@ }),
    {
        &mut self.connected
    }

    /// Replaces the payload and leaves identifier and edges alone.
    pub fn change_value(&mut self, value: T)
        ensures
            final(self)@ == (NodeView { value, ..old(self)@ }),
    {
        self.value = value;
    }
}

} // verus!
