use graph_store::board::Board;
use graph_store::tag::Tagger;

#[test]
fn node_add_remove() {
    let mut b = Board::new();
    for _ in 0..5 {
        b.add_node();
    }

    b.remove_node(&0);
    b.remove_node(&1);
    b.remove_node(&3);

    assert!(b.nodes.contains_key(&2));
    assert!(b.nodes.contains_key(&4));
    assert_eq!(b.nodes.len(), 2);
    b.remove_node(&2);
    b.remove_node(&4);
    assert!(b.remove_node(&0).is_none());
    assert_eq!(b.nodes.len(), 0);
}

#[test]
fn edge_add_remove() {
    let mut b = Board::new();
    for _ in 0..5 {
        b.add_node();
    }
    b.add_edge(0, 1);
    b.add_edge(2, 3);
    b.add_edge(0, 2);
    b.add_edge(5, 10);

    b.remove_node(&0);

    assert!(b.nodes.get(&0).is_none());
    assert_eq!(b.nodes.get(&1).expect("missing node!").edges.len(), 0);
    assert!(b.nodes.get(&2).expect("missing node!").edges.contains(&1));
    assert_eq!(b.nodes.get(&2).expect("missing node!").edges.len(), 1);
    assert!(b.nodes.get(&3).expect("missing node!").edges.contains(&1));
    assert_eq!(b.nodes.get(&3).expect("missing node!").edges.len(), 1);
    assert_eq!(b.nodes.get(&4).expect("missing node!").edges.len(), 0);
}

#[test]
fn add_remove() {
    let mut t = Tagger::new();
    for i in 0..5 {
        assert_eq!(i, t.new_tag());
    }
    t.remove_tag(1);
    t.remove_tag(3);
    assert!(t.new_tag() < 5);
    assert!(t.new_tag() < 5);
    assert_eq!(5, t.new_tag());
    t.remove_tag(1);
    assert!(t.new_tag() < 6);
    assert_eq!(6, t.new_tag());
    assert_eq!(t.available_ids.len(), 0);
}

#[test]
fn tagger_lifo_reuse() {
    let mut t = Tagger::new();
    assert_eq!(t.new_tag(), 0);
    assert_eq!(t.new_tag(), 1);
    assert_eq!(t.new_tag(), 2);
    t.remove_tag(1);
    t.remove_tag(0);
    // the most recently released identifier comes back first
    assert_eq!(t.new_tag(), 0);
    assert_eq!(t.new_tag(), 1);
    assert_eq!(t.new_tag(), 3);
}

#[test]
fn issued_ids_distinct() {
    let mut t = Tagger::new();
    let mut seen: Vec<i32> = Vec::new();
    for _ in 0..4 {
        let id = t.new_tag();
        assert!(!seen.contains(&id));
        seen.push(id);
    }
    t.remove_tag(seen[1]);
    seen.remove(1);
    let id = t.new_tag();
    assert!(!seen.contains(&id));
}

#[test]
fn node_ids_reused_lifo() {
    let mut b = Board::new();
    for _ in 0..5 {
        b.add_node();
    }
    b.remove_node(&1);
    b.remove_node(&3);
    // freed node ids come back most-recently-released first
    assert_eq!(b.add_node(), 3);
    assert_eq!(b.add_node(), 1);
    assert_eq!(b.add_node(), 5);
}

#[test]
fn self_loop_rejected() {
    let mut b = Board::new();
    let a = b.add_node();
    assert_eq!(b.add_edge(a, a), None);
    assert_eq!(b.edges.len(), 0);
}

#[test]
fn absent_endpoint_rejected() {
    let mut b = Board::new();
    let a = b.add_node();
    assert_eq!(b.add_edge(a, 77), None);
    assert_eq!(b.add_edge(77, a), None);
    assert_eq!(b.add_edge(77, 78), None);
    assert_eq!(b.edges.len(), 0);
    assert_eq!(b.nodes.len(), 1);
}

#[test]
fn new_edge_listed_on_both_endpoints() {
    let mut b = Board::new();
    let x = b.add_node();
    let y = b.add_node();
    let e = b.add_edge(x, y).expect("edge rejected");
    assert!(b.edges.contains_key(&e));
    assert!(b.nodes.get(&x).unwrap().edges.contains(&e));
    assert!(b.nodes.get(&y).unwrap().edges.contains(&e));
    let rec = b.edges.get(&e).unwrap();
    assert_eq!(rec.from, x);
    assert_eq!(rec.to, y);
    assert_eq!(rec.name, "");
    assert_eq!(rec.notes, "");
}

#[test]
fn remove_edge_clears_both_lists() {
    let mut b = Board::new();
    let x = b.add_node();
    let y = b.add_node();
    let e = b.add_edge(x, y).unwrap();
    let removed = b.remove_edge(&e).expect("edge missing");
    assert_eq!(removed.from, x);
    assert_eq!(removed.to, y);
    assert!(!b.edges.contains_key(&e));
    assert_eq!(b.nodes.get(&x).unwrap().edges.len(), 0);
    assert_eq!(b.nodes.get(&y).unwrap().edges.len(), 0);
    assert!(b.remove_edge(&e).is_none());
}

#[test]
fn removed_node_keeps_its_edge_list() {
    let mut b = Board::new();
    let x = b.add_node();
    let y = b.add_node();
    let z = b.add_node();
    let e1 = b.add_edge(x, y).unwrap();
    let e2 = b.add_edge(x, z).unwrap();
    let node = b.remove_node(&x).expect("node missing");
    // the snapshot returned carries the list as it stood before the cascade
    assert_eq!(node.edges.len(), 2);
    assert!(node.edges.contains(&e1));
    assert!(node.edges.contains(&e2));
    assert!(!b.edges.contains_key(&e1));
    assert!(!b.edges.contains_key(&e2));
    // the freed node id is recycled
    assert_eq!(b.add_node(), x);
}

#[test]
fn edit_names_and_notes() {
    let mut b = Board::new();
    let x = b.add_node();
    let y = b.add_node();
    let e = b.add_edge(x, y).unwrap();
    assert!(b.set_node_name(&x, String::from("start")));
    assert!(b.set_node_notes(&x, String::from("first node")));
    assert!(b.set_edge_name(&e, String::from("link")));
    assert!(b.set_edge_notes(&e, String::from("x to y")));
    assert_eq!(b.nodes.get(&x).unwrap().name, "start");
    assert_eq!(b.nodes.get(&x).unwrap().notes, "first node");
    assert_eq!(b.edges.get(&e).unwrap().name, "link");
    assert_eq!(b.edges.get(&e).unwrap().notes, "x to y");
    assert!(!b.set_node_name(&99, String::from("nobody")));
    assert_eq!(b.nodes.get(&y).unwrap().name, "");
}

#[test]
fn node_ids_lists_live_nodes() {
    let mut b = Board::new();
    for _ in 0..4 {
        b.add_node();
    }
    b.remove_node(&2);
    let ids = b.node_ids();
    assert_eq!(ids.len(), 3);
    assert!(ids.contains(&0));
    assert!(ids.contains(&1));
    assert!(ids.contains(&3));
    assert!(!ids.contains(&2));
}
