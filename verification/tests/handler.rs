use graph_lib::error::GraphError;
use graph_lib::graph::{CyclePolicy, Graph};
use graph_lib::handler::GraphHandler;
use graph_lib::iterator::GraphIter;
use graph_lib::node::Node;

fn sample() -> Graph<&'static str> {
    let mut graph = Graph::new();
    graph.add_node(Node::new(666, "Text", Some(vec![4]))).unwrap();
    graph.add_node(Node::new(4, "Text", Some(vec![3, 2]))).unwrap();
    graph.add_node(Node::new(3, "Text", Some(vec![777, 999]))).unwrap();
    graph.add_node(Node::new(2, "Text", Some(vec![8]))).unwrap();
    graph.add_node(Node::new(8, "Text", Some(vec![111, 222]))).unwrap();
    graph.add_node(Node::new(999, "Text", None)).unwrap();
    graph.add_node(Node::new(777, "Text", None)).unwrap();
    graph.add_node(Node::new(111, "Text", None)).unwrap();
    graph.add_node(Node::new(222, "Text", None)).unwrap();
    graph
}

fn load(text: &str) -> Result<Graph<u8>, GraphError> {
    GraphHandler::new().deserialize(text.as_bytes())
}

#[test]
pub fn serialize_deserialize_same_graph() {
    let mut graph = Graph::new();

    graph.add_node(Node::new(666, "Text", Some(vec![4]))).unwrap();
    graph.add_node(Node::new(4, "Text", Some(vec![3, 2]))).unwrap();
    graph.add_node(Node::new(3, "Text", Some(vec![777, 999]))).unwrap();
    graph.add_node(Node::new(2, "Text", Some(vec![8]))).unwrap();
    graph.add_node(Node::new(8, "Text", Some(vec![111, 222]))).unwrap();
    graph.add_node(Node::new(999, "Text", None)).unwrap();
    graph.add_node(Node::new(777, "Text", None)).unwrap();
    graph.add_node(Node::new(111, "Text", None)).unwrap();
    graph.add_node(Node::new(222, "Text", None)).unwrap();

    graph.set_root(Some(666)).unwrap();

    let handler = GraphHandler::new();
    let text = handler.serialize(&graph).expect("Graph Can Not be Serialized!");

    let fresh_graph: Graph<String> = handler.deserialize(&text).unwrap();

    let mut iter1 = GraphIter::new(graph.root()).unwrap();
    let mut iter2 = GraphIter::new(fresh_graph.root()).unwrap();

    if graph.len() == fresh_graph.len() {
        for _ in 0..graph.len() {
            let node1 = iter1.next_depth_search(&graph).unwrap();
            let node2 = iter2.next_depth_search(&fresh_graph).unwrap();
            assert!(node1 == node2);
        }
    } else {
        panic!("Two Graphs Have Different Number of Nodes!");
    }
}

#[test]
fn serialized_text_is_exact() {
    let mut graph = sample();
    graph.set_root(Some(666)).unwrap();
    let text = GraphHandler::new().serialize(&graph).unwrap();
    let expected = "666 Root\n4\n3\n2\n777\n999\n8\n111\n222\n#\n\
                    666 4\n4 3\n4 2\n3 777\n3 999\n2 8\n8 111\n8 222\n";
    assert_eq!(String::from_utf8(text).unwrap(), expected);
}

#[test]
fn serialize_needs_a_root() {
    let graph = sample();
    assert_eq!(GraphHandler::new().serialize(&graph), Err(GraphError::NoRoot));
}

#[test]
fn serialize_writes_what_the_root_reaches() {
    let mut graph = sample();
    graph.set_root(Some(2)).unwrap();
    let text = GraphHandler::new().serialize(&graph).unwrap();
    assert_eq!(String::from_utf8(text).unwrap(), "2 Root\n8\n111\n222\n#\n2 8\n8 111\n8 222\n");
}

#[test]
fn serialize_writes_large_and_small_identifiers() {
    let mut graph = Graph::new();
    graph.add_node(Node::new(0, (), Some(vec![usize::MAX, 10]))).unwrap();
    graph.add_node(Node::new(usize::MAX, (), None)).unwrap();
    graph.add_node(Node::new(10, (), None)).unwrap();
    graph.set_root(Some(0)).unwrap();
    let text = String::from_utf8(GraphHandler::new().serialize(&graph).unwrap()).unwrap();
    let max = usize::MAX.to_string();
    assert_eq!(text, format!("0 Root\n{max}\n10\n#\n0 {max}\n0 10\n"));
    let back: Graph<u8> = GraphHandler::new().deserialize(text.as_bytes()).unwrap();
    assert_eq!(back.get_node(0).unwrap().connected(), &vec![usize::MAX, 10]);
}

#[test]
fn round_trip_keeps_nodes_root_and_edges() {
    let mut graph = sample();
    graph.set_root(Some(666)).unwrap();
    let handler = GraphHandler::new();
    let text = handler.serialize(&graph).unwrap();
    let back: Graph<String> = handler.deserialize(&text).unwrap();
    assert_eq!(back.root(), Some(666));
    assert_eq!(back.len(), graph.len());
    assert_eq!(back.policy(), CyclePolicy::Unrestricted);
    for id in [666, 4, 3, 2, 8, 999, 777, 111, 222] {
        let node = back.get_node(id).unwrap();
        assert_eq!(node.index(), id);
        assert_eq!(node.connected(), graph.get_node(id).unwrap().connected());
        assert_eq!(node.value, String::new());
    }
    assert_eq!(handler.serialize(&back).unwrap(), text);
}

#[test]
fn deserialize_reads_nodes_root_and_edges() {
    let graph = load("1\n2 Root\n3\n#\n2 3\n2 1\n3 1\n").unwrap();
    assert_eq!(graph.len(), 3);
    assert_eq!(graph.root(), Some(2));
    assert_eq!(graph.get_node(1).unwrap().connected(), &Vec::new());
    assert_eq!(graph.get_node(2).unwrap().connected(), &vec![3, 1]);
    assert_eq!(graph.get_node(3).unwrap().connected(), &vec![1]);
    assert_eq!(graph.get_node(2).unwrap().value, 0);
}

#[test]
fn deserialize_accepts_text_without_root_or_separator_or_last_newline() {
    let graph = load("").unwrap();
    assert_eq!(graph.len(), 0);
    assert_eq!(graph.root(), None);

    let graph = load("5\n6").unwrap();
    assert_eq!(graph.len(), 2);
    assert_eq!(graph.root(), None);

    let graph = load("5\n6\n#\n5 6").unwrap();
    assert_eq!(graph.get_node(5).unwrap().connected(), &vec![6]);

    let graph = load("#\n").unwrap();
    assert_eq!(graph.len(), 0);
}

#[test]
fn deserialize_takes_the_last_root_marker() {
    let graph = load("1 Root\n2 Root\n#\n").unwrap();
    assert_eq!(graph.root(), Some(2));
}

#[test]
fn deserialize_accepts_carriage_returns_and_plus_signs() {
    let graph = load("1 Root\r\n+2\r\n#\r\n1 +2\r\n").unwrap();
    assert_eq!(graph.root(), Some(1));
    assert_eq!(graph.get_node(1).unwrap().connected(), &vec![2]);
    assert_eq!(load("1\r").err(), Some(GraphError::MalformedInput));
    assert_eq!(load("1\r\r\n").err(), Some(GraphError::MalformedInput));
}

#[test]
fn deserialize_refuses_malformed_lines() {
    for text in [
        "\n",
        "1\n\n2\n",
        "x\n",
        "1 \n",
        " 1\n",
        "1 root\n",
        "1 Root \n",
        "1 Root Root\n",
        "1 label\n",
        "1  Root\n",
        "-1\n",
        "+\n",
        "1+\n",
        "# \n",
        "##\n",
        "#\n#\n",
        "1\n#\n1\n",
        "1\n2\n#\n1 2 \n",
        "1\n2\n#\n1  2\n",
        "1\n2\n#\n1 2 3\n",
        "1\n2\n#\n1 Root\n",
        "1\n2\n#\n 1 2\n",
        "1\n2\n#\n\n",
        "99999999999999999999999999999999999999999\n",
    ] {
        assert_eq!(load(text).err(), Some(GraphError::MalformedInput), "{:?}", text);
    }
}

#[test]
fn deserialize_checks_the_machine_word() {
    let max = usize::MAX.to_string();
    let graph = load(&format!("000{max}\n")).unwrap();
    assert!(graph.in_graph(usize::MAX));
    let mut over = max.clone().into_bytes();
    let last = over.len() - 1;
    over[last] += 1;
    assert_eq!(
        GraphHandler::new().deserialize::<u8>(&over).err(),
        Some(GraphError::MalformedInput)
    );
    assert_eq!(load(&format!("{max}0\n")).err(), Some(GraphError::MalformedInput));
}

#[test]
fn deserialize_passes_on_what_the_graph_refuses() {
    assert_eq!(load("1\n2\n1\n").err(), Some(GraphError::DuplicateId));
    assert_eq!(load("1\n#\n1 1\n").err(), Some(GraphError::SelfLoop));
    assert_eq!(load("1\n2\n#\n1 2\n1 2\n").err(), Some(GraphError::DuplicateEdge));
    assert_eq!(load("1\n2\n#\n1 3\n").err(), Some(GraphError::NodeNotFound));
    assert_eq!(load("1\n2\n#\n3 1\n").err(), Some(GraphError::NodeNotFound));
    assert_eq!(load("1\n#\n2 2\n").err(), Some(GraphError::NodeNotFound));
}

#[test]
fn deserialize_reports_the_first_failure() {
    assert_eq!(load("1\n1\nx\n").err(), Some(GraphError::DuplicateId));
    assert_eq!(load("1\nx\n1\n").err(), Some(GraphError::MalformedInput));
    assert_eq!(load("1\n#\n1 1\nx\n").err(), Some(GraphError::SelfLoop));
}

#[test]
fn deserialize_accepts_cycles() {
    let graph = load("1 Root\n2\n#\n1 2\n2 1\n").unwrap();
    assert_eq!(graph.get_node(2).unwrap().connected(), &vec![1]);
}
