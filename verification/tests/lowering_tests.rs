use layout::dag::DAG;
use layout::lowering::insert_edge_canonical;
use layout::lowering::split_long_path;
use layout::lowering::EdgeInsertion;

#[test]
fn cycle_gets_exactly_one_reversed_edge() {
    // In `a -> b -> c -> a` the last edge closes a cycle, so exactly one
    // of the three insertions is reversed and the graph stays a DAG.
    let mut g = DAG::new();
    let a = g.new_node();
    let b = g.new_node();
    let c = g.new_node();
    let r1 = insert_edge_canonical(&mut g, a, b);
    let r2 = insert_edge_canonical(&mut g, b, c);
    let r3 = insert_edge_canonical(&mut g, c, a);
    assert_eq!(r1, EdgeInsertion::Inserted);
    assert_eq!(r2, EdgeInsertion::Inserted);
    assert_eq!(r3, EdgeInsertion::Reversed);
    g.verify();
}

#[test]
fn two_cycle_reverses_second_edge() {
    // In `a -> b; b -> a` the second edge is inserted reversed, so both
    // drawn edges run from `a` to `b` in the graph.
    let mut g = DAG::new();
    let a = g.new_node();
    let b = g.new_node();
    let r1 = insert_edge_canonical(&mut g, a, b);
    let r2 = insert_edge_canonical(&mut g, b, a);
    assert_eq!(r1, EdgeInsertion::Inserted);
    assert_eq!(r2, EdgeInsertion::Reversed);
    assert_eq!(g.successors(a).len(), 2);
    assert_eq!(g.predecessors(b).len(), 2);
}

#[test]
fn self_edge_is_stashed_not_inserted() {
    let mut g = DAG::new();
    let a = g.new_node();
    let r = insert_edge_canonical(&mut g, a, a);
    assert_eq!(r, EdgeInsertion::SelfEdge);
    assert_eq!(g.successors(a).len(), 0);
}

#[test]
fn long_edge_split_leaves_unit_spans() {
    // An edge from level 0 to level 3 is split twice; afterwards every
    // pair of path neighbors lies exactly one level apart.
    let mut g = DAG::new();
    let a = g.new_node();
    let b = g.new_node();
    g.add_edge(a, b);
    g.update_node_rank_level(b, 3, None);
    let mut path = vec![a, b];
    let created = split_long_path(&mut g, &mut path);
    assert_eq!(created.len(), 2);
    assert_eq!(path.len(), 4);
    assert_eq!(path[0], a);
    assert_eq!(path[3], b);
    for i in 0..path.len() - 1 {
        assert_eq!(g.level(path[i]) + 1, g.level(path[i + 1]));
    }
    g.verify();
}
