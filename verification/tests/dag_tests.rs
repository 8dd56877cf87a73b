use layout::dag::DAG;

#[test]
fn test_simple_construction() {
    let mut g = DAG::new();
    let h0 = g.new_node();
    g.verify();

    let h1 = g.new_node();
    let h2 = g.new_node();
    let h3 = g.new_node();
    let h4 = g.new_node();

    assert_ne!(h0, h1);
    assert_ne!(h1, h2);

    g.add_edge(h0, h1);
    g.add_edge(h1, h2);
    g.add_edge(h0, h2);
    g.add_edge(h2, h3);
    g.add_edge(h3, h4);

    g.verify();

    let order = g.topological_sort();
    let levels = g.compute_levels(&order);
    assert_eq!(order.len(), g.len());
    assert_eq!(levels.len(), g.len());

    for i in 0..g.len() {
        println!("{}) node {},  level {}", i, order[i].idx, levels[i]);
    }
}

#[test]
fn test_rank_api() {
    let mut g = DAG::new();
    let h0 = g.new_node();
    let h1 = g.new_node();
    let h2 = g.new_node();

    g.add_edge(h0, h1);
    g.add_edge(h1, h2);

    g.recompute_node_ranks();
    g.verify();

    assert_eq!(g.level(h0), 0);
    assert_eq!(g.level(h1), 1);
    assert_eq!(g.level(h2), 2);

    let r1 = g.remove_edge(h0, h1);
    let r2 = g.remove_edge(h0, h1);
    // Should be able to remove the edge that we inserted.
    assert!(r1);
    // The edge should no longer be there!
    assert!(!r2);
}

#[test]
fn recompute_node_ranks_twice_gives_same_ranks() {
    let mut g = DAG::new();
    let a = g.new_node();
    let b = g.new_node();
    let c = g.new_node();
    let d = g.new_node();
    g.add_edge(a, b);
    g.add_edge(b, c);
    g.add_edge(a, c);
    g.add_edge(c, d);

    g.recompute_node_ranks();
    let levels1: Vec<usize> = (0..g.len())
        .map(|i| g.level(layout::dag::NodeHandle::new(i)))
        .collect();
    let rows1: Vec<Vec<usize>> = (0..g.num_levels())
        .map(|l| g.row(l).iter().map(|h| h.get_index()).collect())
        .collect();

    g.recompute_node_ranks();
    let levels2: Vec<usize> = (0..g.len())
        .map(|i| g.level(layout::dag::NodeHandle::new(i)))
        .collect();
    let rows2: Vec<Vec<usize>> = (0..g.num_levels())
        .map(|l| g.row(l).iter().map(|h| h.get_index()).collect())
        .collect();

    assert_eq!(levels1, levels2);
    assert_eq!(rows1, rows2);
}

#[test]
fn update_rank_level_inserts_immediately_before_marker() {
    // A connector moved onto a node's rank with the node as the marker must
    // land immediately before the node in the row.
    let mut g = DAG::new();
    let a = g.new_node();
    let b = g.new_node();
    let conn = g.new_node();
    g.update_node_rank_level(b, 1, None);
    g.update_node_rank_level(conn, 1, Some(b));
    let row = g.row(1);
    assert_eq!(row.len(), 2);
    assert_eq!(row[0], conn);
    assert_eq!(row[1], b);
    assert_eq!(g.level(a), 0);
}

#[test]
fn is_reachable_follows_paths() {
    let mut g = DAG::new();
    let a = g.new_node();
    let b = g.new_node();
    let c = g.new_node();
    let d = g.new_node();
    g.add_edge(a, b);
    g.add_edge(b, c);
    assert!(g.is_reachable(a, c));
    assert!(g.is_reachable(a, a));
    assert!(!g.is_reachable(c, a));
    assert!(!g.is_reachable(a, d));
}
