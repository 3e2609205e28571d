use graph_store::board::Board;

fn assert_same_store(a: &Board, b: &Board) {
    assert_eq!(a.node_tagger.n, b.node_tagger.n);
    assert_eq!(a.node_tagger.available_ids, b.node_tagger.available_ids);
    assert_eq!(a.edge_tagger.n, b.edge_tagger.n);
    assert_eq!(a.edge_tagger.available_ids, b.edge_tagger.available_ids);
    assert_eq!(a.nodes.len(), b.nodes.len());
    for id in a.node_ids() {
        let na = a.nodes.get(&id).expect("node missing on one side");
        let nb = b.nodes.get(&id).expect("node missing on the other side");
        assert_eq!(na.name, nb.name);
        assert_eq!(na.notes, nb.notes);
        assert_eq!(na.edges, nb.edges);
    }
    assert_eq!(a.edges.len(), b.edges.len());
}

#[test]
fn empty_store_round_trip() {
    let b = Board::new();
    let bytes = b.encode();
    // allocator counter, recycle count, node count, then the same for edges
    assert_eq!(bytes, b"0\n0\n0\n0\n0\n0\n");
    let back = Board::decode(&bytes).expect("snapshot refused");
    assert_same_store(&b, &back);
}

#[test]
fn full_store_round_trip() {
    let mut b = Board::new();
    for _ in 0..12 {
        b.add_node();
    }
    b.remove_node(&4);
    b.remove_node(&7);
    let e1 = b.add_edge(0, 1).unwrap();
    let e2 = b.add_edge(2, 3).unwrap();
    b.add_edge(5, 6).unwrap();
    b.remove_edge(&e2);
    b.set_node_name(&0, String::from("origin"));
    b.set_node_notes(&0, String::from("multi\nline\nnotes with spaces"));
    b.set_edge_name(&e1, String::from("7\n11\n"));
    b.set_edge_notes(&e1, String::from("snowman \u{2603} and accents \u{e9}\u{e8}"));
    let bytes = b.encode();
    let back = Board::decode(&bytes).expect("snapshot refused");
    assert_same_store(&b, &back);
    assert_eq!(back.nodes.get(&0).unwrap().name, "origin");
    assert_eq!(
        back.nodes.get(&0).unwrap().notes,
        "multi\nline\nnotes with spaces"
    );
    let edge = back.edges.get(&e1).unwrap();
    assert_eq!(edge.name, "7\n11\n");
    assert_eq!(edge.notes, "snowman \u{2603} and accents \u{e9}\u{e8}");
    assert_eq!(edge.from, 0);
    assert_eq!(edge.to, 1);
    // the allocators came back too: the next ids continue as before
    let mut b2 = back;
    assert_eq!(b2.add_node(), 7);
    assert_eq!(b2.add_node(), 4);
    assert_eq!(b2.add_node(), 12);
}

#[test]
fn snapshot_is_deterministic_text() {
    let mut b = Board::new();
    b.add_node();
    b.add_node();
    b.add_edge(0, 1);
    b.set_node_name(&1, String::from("b"));
    let bytes = b.encode();
    // node allocator 2/0, two nodes with their edge lists, names, notes,
    // edge allocator 1/0, one edge 0 -> 1
    let expected: &[u8] = b"2\n0\n2\n0\n1\n0\n0\n\n0\n\n1\n1\n0\n1\nb\n0\n\n1\n0\n1\n0\n0\n1\n0\n\n0\n\n";
    assert_eq!(bytes, expected);
    assert_eq!(b.encode(), bytes);
}

#[test]
fn corrupt_snapshot_refused() {
    assert!(Board::decode(&Vec::new()).is_none());
    assert!(Board::decode(&b"not a snapshot".to_vec()).is_none());
    assert!(Board::decode(&b"9".to_vec()).is_none());
    assert!(Board::decode(&b"99999999999999999999999999\n".to_vec()).is_none());
}
