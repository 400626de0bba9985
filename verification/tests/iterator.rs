use graph_lib::error::GraphError;
use graph_lib::graph::Graph;
use graph_lib::iterator::GraphIter;
use graph_lib::node::Node;

fn sample() -> Graph<&'static str> {
    let mut graph = Graph::new();
    graph.add_node(Node::new(666, "Text", Some(vec![4]))).unwrap();
    graph.add_node(Node::new(4, "Text", Some(vec![3, 2]))).unwrap();
    graph.add_node(Node::new(3, "Text", Some(vec![777, 999]))).unwrap();
    graph.add_node(Node::new(2, "Text", Some(vec![8]))).unwrap();
    graph.add_node(Node::new(8, "Text", Some(vec![111, 222]))).unwrap();
    graph.add_node(Node::new(999, "Text", None)).unwrap();
    graph.add_node(Node::new(777, "Text", None)).unwrap();
    graph.add_node(Node::new(111, "Text", None)).unwrap();
    graph.add_node(Node::new(222, "Text", None)).unwrap();
    graph
}

#[test]
pub fn check_bfs() -> Result<(), String> {
    let mut graph = Graph::new();

    graph.add_node(Node::new(666, "Text", Some(vec![4]))).unwrap();
    graph.add_node(Node::new(4, "Text", Some(vec![3, 2]))).unwrap();
    graph.add_node(Node::new(3, "Text", Some(vec![777, 999]))).unwrap();
    graph.add_node(Node::new(2, "Text", Some(vec![8]))).unwrap();
    graph.add_node(Node::new(8, "Text", Some(vec![111, 222]))).unwrap();
    graph.add_node(Node::new(999, "Text", None)).unwrap();
    graph.add_node(Node::new(777, "Text", None)).unwrap();
    graph.add_node(Node::new(111, "Text", None)).unwrap();
    graph.add_node(Node::new(222, "Text", None)).unwrap();

    let correct_order = vec![666, 4, 3, 2, 777, 999, 8, 111, 222];

    let mut iterator = GraphIter::new(Some(666)).unwrap();

    let mut i = 0;
    let mut pass = true;
    while let Some(index) = iterator.next_breadth_search(&graph) {
        if correct_order[i] != index {
            pass = false;
        }
        i += 1;
    }

    match pass {
        true => return Ok(()),
        false => return Err(String::from("Wrong Next Element of BFS!")),
    }
}

#[test]
pub fn check_dfs() -> Result<(), String> {
    let mut graph = Graph::new();

    graph.add_node(Node::new(666, "Text", Some(vec![4]))).unwrap();
    graph.add_node(Node::new(4, "Text", Some(vec![3, 2]))).unwrap();
    graph.add_node(Node::new(3, "Text", Some(vec![777, 999]))).unwrap();
    graph.add_node(Node::new(2, "Text", Some(vec![8]))).unwrap();
    graph.add_node(Node::new(8, "Text", Some(vec![111, 222]))).unwrap();
    graph.add_node(Node::new(999, "Text", None)).unwrap();
    graph.add_node(Node::new(777, "Text", None)).unwrap();
    graph.add_node(Node::new(111, "Text", None)).unwrap();
    graph.add_node(Node::new(222, "Text", None)).unwrap();

    let correct_order = vec![666, 4, 3, 777, 999, 2, 8, 111, 222];

    let mut iterator = GraphIter::new(Some(666)).unwrap();

    let mut i = 0;
    let mut pass = true;
    while let Some(index) = iterator.next_depth_search(&graph) {
        if correct_order[i] != index {
            pass = false;
        }
        i += 1;
    }

    match pass {
        true => return Ok(()),
        false => return Err(String::from("Wrong Next Element of BFS!")),
    }
}

#[test]
pub fn check_iterating_loops() -> Result<(), String> {
    let mut graph = Graph::new();

    graph.add_node(Node::new(666, "Text", None)).unwrap();
    graph.add_node(Node::new(4, "Text", None)).unwrap();
    graph.add_node(Node::new(3, "Text", None)).unwrap();

    graph.add_edge(666, 4).unwrap();
    graph.add_edge(4, 3).unwrap();
    graph.add_edge(3, 666).unwrap();

    let mut iterator = GraphIter::new(Some(666)).unwrap();

    let mut last = 0;
    while let Some(index) = iterator.next_breadth_search(&graph) {
        last = index;
    }

    match last {
        3 => return Ok(()),
        _ => return Err(String::from("Wrong Next Element of BFS!")),
    }
}

#[test]
fn breadth_first_is_level_order() {
    let graph = sample();
    let mut iter = GraphIter::new(Some(666)).unwrap();
    let mut seen = Vec::new();
    while let Some(id) = iter.next_breadth_search(&graph) {
        seen.push(id);
    }
    assert_eq!(seen, vec![666, 4, 3, 2, 777, 999, 8, 111, 222]);
    assert_eq!(iter.next_breadth_search(&graph), None);
}

#[test]
fn depth_first_follows_declared_order() {
    let graph = sample();
    let mut iter = GraphIter::new(Some(666)).unwrap();
    let mut seen = Vec::new();
    while let Some(id) = iter.next_depth_search(&graph) {
        seen.push(id);
    }
    assert_eq!(seen, vec![666, 4, 3, 777, 999, 2, 8, 111, 222]);
    assert_eq!(iter.next_depth_search(&graph), None);
}

#[test]
fn cycle_of_three_yields_each_id_once() {
    let mut graph = Graph::new();
    for id in [666, 4, 3] {
        graph.add_node(Node::new(id, "Text", None)).unwrap();
    }
    graph.add_edge(666, 4).unwrap();
    graph.add_edge(4, 3).unwrap();
    graph.add_edge(3, 666).unwrap();

    let mut iter = GraphIter::new(Some(666)).unwrap();
    let mut seen = Vec::new();
    while let Some(id) = iter.next_breadth_search(&graph) {
        seen.push(id);
    }
    assert_eq!(seen, vec![666, 4, 3]);

    iter.reset(Some(666)).unwrap();
    let mut seen = Vec::new();
    while let Some(id) = iter.next_depth_search(&graph) {
        seen.push(id);
    }
    assert_eq!(seen, vec![666, 4, 3]);
}

#[test]
fn traversal_needs_a_root() {
    assert_eq!(GraphIter::new(None).err(), Some(GraphError::NoRoot));
    let graph = sample();
    let mut iter = GraphIter::new(Some(4)).unwrap();
    assert_eq!(iter.next_breadth_search(&graph), Some(4));
    assert_eq!(iter.reset(None), Err(GraphError::NoRoot));
    assert_eq!(iter.next_breadth_search(&graph), Some(3));
}

#[test]
fn reset_starts_again_and_forgets_what_was_seen() {
    let graph = sample();
    let mut iter = GraphIter::new(Some(666)).unwrap();
    assert_eq!(iter.next_breadth_search(&graph), Some(666));
    assert_eq!(iter.next_breadth_search(&graph), Some(4));
    assert_eq!(iter.reset(Some(2)), Ok(()));
    let mut seen = Vec::new();
    while let Some(id) = iter.next_breadth_search(&graph) {
        seen.push(id);
    }
    assert_eq!(seen, vec![2, 8, 111, 222]);
}

#[test]
fn missing_nodes_are_skipped() {
    let mut graph = Graph::new();
    graph.add_node(Node::new(1, (), Some(vec![5, 2, 6]))).unwrap();
    graph.add_node(Node::new(2, (), Some(vec![7, 3]))).unwrap();
    graph.add_node(Node::new(3, (), None)).unwrap();

    let mut iter = GraphIter::new(Some(1)).unwrap();
    let mut seen = Vec::new();
    while let Some(id) = iter.next_breadth_search(&graph) {
        seen.push(id);
    }
    assert_eq!(seen, vec![1, 2, 3]);

    let mut iter = GraphIter::new(Some(1)).unwrap();
    let mut seen = Vec::new();
    while let Some(id) = iter.next_depth_search(&graph) {
        seen.push(id);
    }
    assert_eq!(seen, vec![1, 2, 3]);

    let mut iter = GraphIter::new(Some(9)).unwrap();
    assert_eq!(iter.next_breadth_search(&graph), None);
    assert_eq!(iter.next_depth_search(&graph), None);
}

#[test]
fn graph_may_change_between_steps() {
    let mut graph = sample();
    let mut iter = GraphIter::new(Some(666)).unwrap();
    assert_eq!(iter.next_breadth_search(&graph), Some(666));
    assert_eq!(iter.next_breadth_search(&graph), Some(4));
    graph.remove_node(3).unwrap();
    graph.add_node(Node::new(5, "Text", None)).unwrap();
    graph.add_edge(2, 5).unwrap();
    assert_eq!(iter.next_breadth_search(&graph), Some(2));
    assert_eq!(iter.next_breadth_search(&graph), Some(8));
    assert_eq!(iter.next_breadth_search(&graph), Some(5));
    assert_eq!(iter.next_breadth_search(&graph), Some(111));
    assert_eq!(iter.next_breadth_search(&graph), Some(222));
    assert_eq!(iter.next_breadth_search(&graph), None);
    assert_eq!(iter.next_breadth_search(&graph), None);
}

#[test]
fn removed_node_is_never_produced() {
    let mut graph = sample();
    graph.remove_node(3).unwrap();
    let mut iter = GraphIter::new(Some(666)).unwrap();
    let mut seen = Vec::new();
    while let Some(id) = iter.next_breadth_search(&graph) {
        seen.push(id);
    }
    assert_eq!(seen, vec![666, 4, 2, 8, 111, 222]);
    iter.reset(Some(666)).unwrap();
    let mut seen = Vec::new();
    while let Some(id) = iter.next_depth_search(&graph) {
        seen.push(id);
    }
    assert_eq!(seen, vec![666, 4, 2, 8, 111, 222]);
}
