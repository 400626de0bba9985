use graph_lib::error::GraphError;
use graph_lib::graph::{CyclePolicy, Graph};
use graph_lib::node::Node;

#[test]
pub fn create_graph_no_root() -> Result<(), String> {
    let graph = Graph::<&str>::new();
    if let Some(_) = graph.get_node(0) {
        Err(String::from("In New Graph There Must be no Root!"))
    } else {
        Ok(())
    }
}

#[test]
pub fn try_get_unexisting_node() -> Result<(), String> {
    let graph = Graph::<&str>::new();
    if graph.get_node(1).is_some() {
        return Err(String::from("Successfully Accessed an Unexisting Node!"));
    } else {
        Ok(())
    }
}

#[test]
pub fn try_find_unexisting_node() {
    let graph = Graph::<&str>::new();
    assert!(!graph.in_graph(111));
}

#[test]
pub fn delete_edge() {
    let mut graph = Graph::new();

    graph.add_node(Node::new(666, "Text", Some(vec![4]))).unwrap();
    graph.add_node(Node::new(4, "Text", Some(vec![3]))).unwrap();
    graph.add_node(Node::new(3, "Text", Some(vec![]))).unwrap();

    graph.remove_edge(666, 4).unwrap();
    assert!(graph.get_node(666).unwrap().connected().is_empty());
}

#[test]
fn new_graph_is_empty_and_unrestricted() {
    let graph = Graph::<u8>::new();
    assert_eq!(graph.len(), 0);
    assert_eq!(graph.root(), None);
    assert_eq!(graph.policy(), CyclePolicy::Unrestricted);
    let strict = Graph::<u8>::with_policy(CyclePolicy::NoTwoCycles);
    assert_eq!(strict.policy(), CyclePolicy::NoTwoCycles);
    assert_eq!(strict.len(), 0);
}

#[test]
fn fresh_id_is_inserted_and_found() {
    let mut graph = Graph::new();
    assert!(!graph.in_graph(666));
    assert_eq!(graph.add_node(Node::new(666, "Text", None)), Ok(()));
    assert!(graph.in_graph(666));
    assert_eq!(graph.len(), 1);
    assert_eq!(graph.get_node(666).unwrap().value, "Text");
}

#[test]
fn same_id_twice_is_duplicate_id() {
    let mut graph = Graph::new();
    assert_eq!(graph.add_node(Node::new(666, "Text", None)), Ok(()));
    assert_eq!(graph.add_node(Node::new(666, "Other", None)), Err(GraphError::DuplicateId));
    assert_eq!(graph.len(), 1);
    assert_eq!(graph.get_node(666).unwrap().value, "Text");
}

#[test]
fn removing_a_missing_node_is_node_not_found() {
    let mut graph = Graph::<&str>::new();
    assert_eq!(graph.remove_node(333), Err(GraphError::NodeNotFound));
}

#[test]
fn removing_a_node_scrubs_edges_to_it() {
    let mut graph = Graph::new();
    graph.add_node(Node::new(1, (), Some(vec![2, 3, 2]))).unwrap();
    graph.add_node(Node::new(2, (), Some(vec![3]))).unwrap();
    graph.add_node(Node::new(3, (), Some(vec![2, 1]))).unwrap();
    assert_eq!(graph.remove_node(2), Ok(()));
    assert!(!graph.in_graph(2));
    assert_eq!(graph.len(), 2);
    assert_eq!(graph.get_node(1).unwrap().connected(), &vec![3]);
    assert_eq!(graph.get_node(3).unwrap().connected(), &vec![1]);
    assert_eq!(graph.remove_node(2), Err(GraphError::NodeNotFound));
}

#[test]
fn removing_the_root_leaves_the_root_as_it_was() {
    let mut graph = Graph::new();
    graph.add_node(Node::new(1, (), None)).unwrap();
    graph.set_root(Some(1)).unwrap();
    graph.remove_node(1).unwrap();
    assert_eq!(graph.root(), Some(1));
    let mut iter = graph.iterator().unwrap();
    assert_eq!(iter.next_breadth_search(&graph), None);
}

#[test]
fn get_node_mut_changes_the_stored_node() {
    let mut graph = Graph::new();
    graph.add_node(Node::new(1, 10, Some(vec![2]))).unwrap();
    graph.add_node(Node::new(2, 20, None)).unwrap();
    graph.get_node_mut(2).unwrap().change_value(21);
    assert_eq!(graph.get_node(2).unwrap().value, 21);
    assert_eq!(graph.get_node(1).unwrap().value, 10);
    assert!(graph.get_node_mut(3).is_none());
}

#[test]
fn root_must_exist_and_cannot_be_unset() {
    let mut graph = Graph::new();
    graph.add_node(Node::new(666, "Text", None)).unwrap();
    graph.add_node(Node::new(4, "Text", None)).unwrap();
    assert_eq!(graph.set_root(None), Ok(()));
    assert_eq!(graph.root(), None);
    assert_eq!(graph.set_root(Some(777)), Err(GraphError::InvalidRoot));
    assert_eq!(graph.root(), None);
    assert_eq!(graph.set_root(Some(666)), Ok(()));
    assert_eq!(graph.root(), Some(666));
    assert_eq!(graph.set_root(Some(777)), Err(GraphError::InvalidRoot));
    assert_eq!(graph.root(), Some(666));
    assert_eq!(graph.set_root(None), Err(GraphError::RootAlreadySet));
    assert_eq!(graph.root(), Some(666));
    assert_eq!(graph.set_root(Some(4)), Ok(()));
    assert_eq!(graph.root(), Some(4));
}

#[test]
fn same_edge_twice_is_duplicate_edge() {
    let mut graph = Graph::new();
    graph.add_node(Node::new(666, "Text", None)).unwrap();
    graph.add_node(Node::new(777, "Daniel", None)).unwrap();
    assert_eq!(graph.add_edge(666, 777), Ok(()));
    assert_eq!(graph.add_edge(666, 777), Err(GraphError::DuplicateEdge));
    assert_eq!(graph.get_node(666).unwrap().connected(), &vec![777]);
}

#[test]
fn edge_between_missing_nodes_is_node_not_found() {
    let mut graph = Graph::<&str>::new();
    assert_eq!(graph.add_edge(666, 777), Err(GraphError::NodeNotFound));
    graph.add_node(Node::new(666, "Text", None)).unwrap();
    assert_eq!(graph.add_edge(666, 777), Err(GraphError::NodeNotFound));
    assert_eq!(graph.add_edge(777, 666), Err(GraphError::NodeNotFound));
    assert_eq!(graph.add_edge(777, 777), Err(GraphError::NodeNotFound));
}

#[test]
fn edge_to_itself_is_self_loop() {
    let mut graph = Graph::new();
    graph.add_node(Node::new(666, "Text", None)).unwrap();
    assert_eq!(graph.add_edge(666, 666), Err(GraphError::SelfLoop));
    assert!(graph.get_node(666).unwrap().connected().is_empty());
}

#[test]
fn edges_are_appended_in_order() {
    let mut graph = Graph::new();
    for id in [1, 2, 3, 4] {
        graph.add_node(Node::new(id, (), None)).unwrap();
    }
    graph.add_edge(1, 3).unwrap();
    graph.add_edge(1, 2).unwrap();
    graph.add_edge(1, 4).unwrap();
    assert_eq!(graph.get_node(1).unwrap().connected(), &vec![3, 2, 4]);
}

#[test]
fn opposite_edge_is_accepted_without_restriction() {
    let mut graph = Graph::new();
    graph.add_node(Node::new(1, (), None)).unwrap();
    graph.add_node(Node::new(2, (), None)).unwrap();
    assert_eq!(graph.add_edge(1, 2), Ok(()));
    assert_eq!(graph.add_edge(2, 1), Ok(()));
}

#[test]
fn opposite_edge_is_cycle_forbidden_under_restriction() {
    let mut graph = Graph::with_policy(CyclePolicy::NoTwoCycles);
    graph.add_node(Node::new(1, (), None)).unwrap();
    graph.add_node(Node::new(2, (), None)).unwrap();
    graph.add_node(Node::new(3, (), None)).unwrap();
    assert_eq!(graph.add_edge(1, 2), Ok(()));
    assert_eq!(graph.add_edge(2, 1), Err(GraphError::CycleForbidden));
    assert!(graph.get_node(2).unwrap().connected().is_empty());
    assert_eq!(graph.add_edge(2, 3), Ok(()));
    assert_eq!(graph.add_edge(3, 1), Ok(()));
    assert_eq!(graph.add_edge(1, 2), Err(GraphError::DuplicateEdge));
}

#[test]
fn node_that_closes_a_two_cycle_is_cycle_forbidden_under_restriction() {
    let mut graph = Graph::with_policy(CyclePolicy::NoTwoCycles);
    graph.add_node(Node::new(1, (), Some(vec![2]))).unwrap();
    assert_eq!(graph.add_node(Node::new(2, (), Some(vec![3, 1]))), Err(GraphError::CycleForbidden));
    assert!(!graph.in_graph(2));
    assert_eq!(graph.add_node(Node::new(2, (), Some(vec![3]))), Ok(()));

    let mut open = Graph::new();
    open.add_node(Node::new(1, (), Some(vec![2]))).unwrap();
    assert_eq!(open.add_node(Node::new(2, (), Some(vec![3, 1]))), Ok(()));
}

#[test]
fn removing_edges_reports_what_is_missing() {
    let mut graph = Graph::new();
    graph.add_node(Node::new(1, (), Some(vec![2, 9, 2]))).unwrap();
    graph.add_node(Node::new(2, (), None)).unwrap();
    assert_eq!(graph.remove_edge(1, 9), Err(GraphError::NodeNotFound));
    assert_eq!(graph.remove_edge(9, 1), Err(GraphError::NodeNotFound));
    assert_eq!(graph.remove_edge(2, 1), Err(GraphError::EdgeNotFound));
    assert_eq!(graph.remove_edge(1, 2), Ok(()));
    assert_eq!(graph.get_node(1).unwrap().connected(), &vec![9]);
    assert_eq!(graph.remove_edge(1, 2), Err(GraphError::EdgeNotFound));
}

#[test]
fn iterator_needs_a_root() {
    let mut graph = Graph::new();
    graph.add_node(Node::new(1, (), None)).unwrap();
    assert_eq!(graph.iterator().err(), Some(GraphError::NoRoot));
    graph.set_root(Some(1)).unwrap();
    let mut iter = graph.iterator().unwrap();
    assert_eq!(iter.next_depth_search(&graph), Some(1));
    assert_eq!(iter.next_depth_search(&graph), None);
}
