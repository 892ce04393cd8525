use pgy_runtime::graph::{Graph, Node, NodeRef, Id};

#[test]
fn demo_link() {
    // n1 -> n2
    let mut n1 = Node::new(1);
    let n2 = NodeRef(1);
    n1.add_child(n2);
    assert_eq!(n1.children(), vec![n2]);
}

#[test]
fn demo_arena() {
    // n1 -> n2 -> n3
    let mut g = Graph::new();
    let n1 = g.add_node(1);
    let n2 = g.add_node(2);
    let n3 = g.add_node(3);
    g.add_child(n2, n3);
    g.add_child(n1, n2);
    assert_eq!(g.children(n1), vec![n2]);
    assert_eq!(g.children(n2), vec![n3]);
    assert_eq!(g.children(n3), vec![]);

    // n1 -> n2 -> n4
    // n1 -> n3 -> n4
    let mut g = Graph::new();
    let n1 = g.add_node(1);
    let n2 = g.add_node(2);
    let n3 = g.add_node(3);
    let n4 = g.add_node(4);
    g.add_child(n1, n2);
    g.add_child(n2, n4);
    g.add_child(n1, n3);
    g.add_child(n3, n4);
    assert_eq!(g.children(n1), vec![n2, n3]);
    assert_eq!(*g.data(n4), 4);
    assert_eq!(g.nodes(), vec![n1, n2, n3, n4]);
}

#[test]
fn demo_gss() {
    let mut g = Graph::new();
    let l_0_0 = g.add_node("L_0:0");
    let l_1_0 = g.add_node("L_1:0");
    let l_3_0 = g.add_node("L_3:0");
    let l_2_1 = g.add_node("L_2:1");
    let l_4_1 = g.add_node("L_4:1");
    let l_1_1 = g.add_node("L_1:1");
    let l_3_1 = g.add_node("L_3:1");
    let l_2_2 = g.add_node("L_2:2");
    let l_4_2 = g.add_node("L_4:2");

    g.add_child(l_4_2, l_2_1);
    g.add_child(l_4_2, l_4_1);
    g.add_child(l_2_2, l_2_1);
    g.add_child(l_2_2, l_4_1);
    g.add_child(l_3_1, l_4_1);
    g.add_child(l_3_1, l_2_1);
    g.add_child(l_1_1, l_4_1);
    g.add_child(l_1_1, l_2_1);
    g.add_child(l_4_1, l_0_0);
    g.add_child(l_2_1, l_0_0);
    g.add_child(l_3_0, l_0_0);
    g.add_child(l_1_0, l_0_0);

    assert_eq!(g.children(l_4_2), vec![l_2_1, l_4_1]);
    assert_eq!(g.children(l_1_0), vec![l_0_0]);
    assert_eq!(*g.data(l_3_1), "L_3:1");
    // nine nodes: the first chunk of the index holds eight, so the ninth
    // comes first when walking
    let nodes = g.nodes();
    let names: Vec<&str> = nodes.iter().map(|n| *g.data(*n)).collect();
    assert_eq!(
        names,
        vec!["L_4:2", "L_0:0", "L_1:0", "L_3:0", "L_2:1", "L_4:1", "L_1:1", "L_3:1", "L_2:2"]
    );
    assert_eq!(nodes.len(), 9);
    assert_eq!(nodes[0], l_4_2);
    assert_eq!(nodes[1], l_0_0);
}

#[test]
fn make_node_is_unpublished_until_included() {
    let mut g = Graph::new();
    let a = g.add_node('a');
    let b = g.make_node('b');
    assert_eq!(g.nodes(), vec![a]);
    g.include_node(b);
    assert_eq!(g.nodes(), vec![a, b]);
    assert_eq!(b.id(), 1);
}
