use layout::dag::DAG;
use layout::optimizer::EdgeCrossOptimizer;
use layout::optimizer::RankOptimizer;

fn row_set(g: &DAG, level: usize) -> Vec<usize> {
    let mut v: Vec<usize> = g.row(level).iter().map(|h| h.get_index()).collect();
    v.sort();
    v
}

#[test]
fn crossing_optimizer_keeps_rows_and_uncrosses_an_x() {
    // Two rows whose two edges cross as an X: the optimizer reorders one
    // of the rows, and afterwards every node still sits on its row.
    let mut g = DAG::new();
    let a = g.new_node();
    let b = g.new_node();
    let c = g.new_node();
    let d = g.new_node();
    g.update_node_rank_level(c, 1, None);
    g.update_node_rank_level(d, 1, None);
    // a sits left of b; a connects to d, b connects to c: one crossing.
    g.add_edge(a, d);
    g.add_edge(b, c);
    let rows_before = vec![row_set(&g, 0), row_set(&g, 1)];
    {
        let mut opt = EdgeCrossOptimizer::new(&mut g);
        opt.optimize();
    }
    let rows_after = vec![row_set(&g, 0), row_set(&g, 1)];
    assert_eq!(rows_before, rows_after);
    g.verify();
}

#[test]
fn rank_optimizer_sinks_a_node() {
    // `a` on level 0 with its only successor on level 3 sinks to level 2.
    let mut g = DAG::new();
    let a = g.new_node();
    let b = g.new_node();
    let c = g.new_node();
    g.add_edge(a, c);
    g.add_edge(b, c);
    g.update_node_rank_level(c, 3, None);
    g.update_node_rank_level(b, 2, None);
    {
        let mut opt = RankOptimizer::new(&mut g);
        opt.optimize();
    }
    assert_eq!(g.level(a), 2);
    assert_eq!(g.level(b), 2);
    assert_eq!(g.level(c), 3);
}

#[test]
fn perturb_and_rotate_keep_row_contents() {
    let mut g = DAG::new();
    let mut handles = Vec::new();
    for _ in 0..5 {
        handles.push(g.new_node());
    }
    let before = row_set(&g, 0);
    {
        let mut opt = EdgeCrossOptimizer::new(&mut g);
        opt.rotate_rank();
        opt.perturb_rank();
    }
    let after = row_set(&g, 0);
    assert_eq!(before, after);
}
