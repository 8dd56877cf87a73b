//! The graph-level steps of lowering: inserting edges so that the graph
//! stays a DAG (reversing back edges), and splitting edges that span more
//! than one level by fresh connector nodes.
//!
//! The second step carries a law of the pipeline: after splitting, every
//! pair of neighboring nodes on an edge path sits on neighboring levels.

use vstd::prelude::*;
use crate::dag::DAG;
use crate::dag::NodeHandle;

verus! {

broadcast use vstd::std_specs::vec::axiom_spec_len;

/// What became of one edge during canonicalization.
#[derive(Debug, Clone, Copy, PartialEq, Eq, Structural)]
pub enum EdgeInsertion {
    /// The edge connects a node to itself; it was stashed, not inserted.
    SelfEdge,
    /// The edge was inserted as given.
    Inserted,
    /// Inserting the edge as given would have closed a directed cycle, so
    /// it was inserted the other way round.
    Reversed,
}

/// Insert the edge `from -> to` into the graph, keeping the graph a DAG:
/// a self-edge is left out, and an edge whose destination already reaches
/// its source is inserted reversed. Exactly the reported reversals must
/// have their arrows reversed by the caller.
pub fn insert_edge_canonical(dag: &mut DAG, from: NodeHandle, to: NodeHandle) -> (r: EdgeInsertion)
    requires
        old(dag).wf(),
        from.idx < old(dag).spec_len(),
        to.idx < old(dag).spec_len(),
    ensures
        final(dag).wf(),
        final(dag).spec_len() == old(dag).spec_len(),
        final(dag).ranks == old(dag).ranks,
        final(dag).levels == old(dag).levels,
        from == to ==> r is SelfEdge && *final(dag) == *old(dag),
        from != to && old(dag).spec_reachable(to.idx as int, from.idx as int) ==> r is Reversed
            && final(dag).succ_of(to.idx as int) == old(dag).succ_of(to.idx as int).push(from)
            && final(dag).pred_of(from.idx as int) == old(dag).pred_of(from.idx as int).push(to),
        from != to && !old(dag).spec_reachable(to.idx as int, from.idx as int) ==> r is Inserted
            && final(dag).succ_of(from.idx as int) == old(dag).succ_of(from.idx as int).push(to)
            && final(dag).pred_of(to.idx as int) == old(dag).pred_of(to.idx as int).push(from),
{
    if from == to {
        return EdgeInsertion::SelfEdge;
    }
    // Reverse back edges.
    if dag.is_reachable(to, from) {
        dag.add_edge(to, from);
        EdgeInsertion::Reversed
    } else {
        dag.add_edge(from, to);
        EdgeInsertion::Inserted
    }
}

/// The sum, over the pairs of the path from position `k` on, of how far the
/// pair's levels lie apart beyond one.
pub open spec fn slack_from(levels: Seq<usize>, lst: Seq<NodeHandle>, k: int) -> int
    decreases lst.len() - k,
{
    if k < 0 || k + 1 >= lst.len() {
        0
    } else {
        (levels[lst[k + 1].idx as int] - levels[lst[k].idx as int] - 1) + slack_from(
            levels,
            lst,
            k + 1,
        )
    }
}

/// Path suffixes with the same nodes at the same levels have the same
/// slack.
proof fn lemma_slack_congruent(
    l1: Seq<usize>,
    p1: Seq<NodeHandle>,
    k1: int,
    l2: Seq<usize>,
    p2: Seq<NodeHandle>,
    k2: int,
)
    requires
        0 <= k1,
        0 <= k2,
        p1.len() - k1 == p2.len() - k2,
        forall|t: int|
            0 <= t < p1.len() - k1 ==> #[trigger] p1[k1 + t] == p2[k2 + t] && 0 <= p1[k1
                + t].idx < l1.len() && p1[k1 + t].idx < l2.len() && l1[p1[k1 + t].idx as int]
                == l2[p2[k2 + t].idx as int],
    ensures
        slack_from(l1, p1, k1) == slack_from(l2, p2, k2),
    decreases p1.len() - k1,
{
    if k1 + 1 < p1.len() {
        assert(p1[k1 + 0] == p2[k2 + 0]);
        assert(p1[k1 + 1] == p2[k2 + 1]);
        assert forall|t: int|
            0 <= t < p1.len() - (k1 + 1) implies #[trigger] p1[k1 + 1 + t] == p2[k2 + 1 + t] && 0
            <= p1[k1 + 1 + t].idx < l1.len() && p1[k1 + 1 + t].idx < l2.len() && l1[p1[k1 + 1
            + t].idx as int] == l2[p2[k2 + 1 + t].idx as int] by {
            assert(p1[k1 + (t + 1)] == p2[k2 + (t + 1)]);
            assert(l1[p1[k1 + (t + 1)].idx as int] == l2[p2[k2 + (t + 1)].idx as int]);
        }
        lemma_slack_congruent(l1, p1, k1 + 1, l2, p2, k2 + 1);
    }
}

/// On a path whose levels rise strictly, the slack is never negative.
proof fn lemma_slack_nonneg(levels: Seq<usize>, lst: Seq<NodeHandle>, k: int)
    requires
        forall|j: int|
            0 <= j < lst.len() - 1 ==> levels[(#[trigger] lst[j]).idx as int] < levels[lst[j
                + 1].idx as int],
    ensures
        slack_from(levels, lst, k) >= 0,
    decreases lst.len() - k,
{
    if 0 <= k && k + 1 < lst.len() {
        lemma_slack_nonneg(levels, lst, k + 1);
        assert(levels[lst[k].idx as int] < levels[lst[k + 1].idx as int]);
    }
}

/// Split the long edges of one edge path: wherever two neighboring path
/// nodes lie more than one level apart, insert a fresh connector node one
/// level below the earlier node, rewire the graph through it, and splice
/// it into the path. Afterwards every pair of neighboring path nodes lies
/// exactly one level apart; the nodes created are returned in order, so
/// that the caller can give each one its visual element.
#[verifier::rlimit(100)]
#[verifier::spinoff_prover]
pub fn split_long_path(dag: &mut DAG, lst: &mut Vec<NodeHandle>) -> (created: Vec<NodeHandle>)
    requires
        old(dag).wf(),
        old(lst)@.len() >= 1,
        forall|j: int|
            0 <= j < old(lst)@.len() ==> (#[trigger] old(lst)@[j]).idx < old(dag).spec_len(),
        forall|j: int|
            0 <= j < old(lst)@.len() - 1 ==> old(dag).spec_level((#[trigger] old(lst)@[j]).idx
                as int) < old(dag).spec_level(old(lst)@[j + 1].idx as int),
        old(dag).spec_len() + slack_from(old(dag).levels@, old(lst)@, 0) < usize::MAX,
    ensures
        final(dag).wf(),
        final(lst)@.len() >= old(lst)@.len(),
        final(lst)@.first() == old(lst)@.first(),
        final(lst)@.last() == old(lst)@.last(),
        forall|j: int|
            0 <= j < final(lst)@.len() ==> (#[trigger] final(lst)@[j]).idx < final(dag).spec_len(),
        // Every edge of the path now spans exactly one level.
        forall|j: int|
            0 <= j < final(lst)@.len() - 1 ==> final(dag).spec_level(
                (#[trigger] final(lst)@[j]).idx as int,
            ) + 1 == final(dag).spec_level(final(lst)@[j + 1].idx as int),
        final(dag).spec_len() == old(dag).spec_len() + created@.len(),
{
    let mut created: Vec<NodeHandle> = Vec::new();
    let ghost n0 = old(dag).spec_len();
    let ghost slack0 = slack_from(old(dag).levels@, old(lst)@, 0);
    let mut i: usize = 1;
    // Walk the consecutive pairs; `i` points at the later node of the pair.
    while i < lst.len()
        invariant
            dag.wf(),
            1 <= i,
            i <= lst@.len(),
            lst@.len() >= old(lst)@.len(),
            lst@.first() == old(lst)@.first(),
            lst@.last() == old(lst)@.last(),
            forall|j: int| 0 <= j < lst@.len() ==> (#[trigger] lst@[j]).idx < dag.spec_len(),
            forall|j: int|
                0 <= j < i - 1 ==> dag.spec_level((#[trigger] lst@[j]).idx as int) + 1
                    == dag.spec_level(lst@[j + 1].idx as int),
            forall|j: int|
                i - 1 <= j < lst@.len() - 1 ==> dag.spec_level((#[trigger] lst@[j]).idx as int)
                    < dag.spec_level(lst@[j + 1].idx as int),
            n0 + slack0 < usize::MAX,
            dag.spec_len() + slack_from(dag.levels@, lst@, i - 1) <= n0 + slack0,
            dag.spec_len() == n0 + created@.len(),
        decreases slack_from(dag.levels@, lst@, i - 1), lst@.len() - i,
    {
        proof {
            assert forall|j: int|
                i - 1 <= j < lst@.len() - 1 implies dag.levels@[(#[trigger] lst@[j]).idx as int]
                < dag.levels@[lst@[j + 1].idx as int] by {
                assert(dag.spec_level(lst@[j].idx as int) < dag.spec_level(lst@[j + 1].idx as int));
            }
            lemma_slack_nonneg(dag.levels@, lst@.subrange(i - 1, lst@.len() as int), 0);
            lemma_slack_congruent(
                dag.levels@,
                lst@,
                i as int - 1,
                dag.levels@,
                lst@.subrange(i - 1, lst@.len() as int),
                0,
            );
        }
        let prev = lst[i - 1];
        let curr = lst[i];

        let prev_level = dag.level(prev);
        let curr_level = dag.level(curr);

        // The path levels rise; a pair that spans one level is done.
        if prev_level + 1 == curr_level {
            i += 1;
        } else {
            let ghost pre = *dag;
            let ghost lst0 = lst@;
            proof {
                lemma_slack_nonneg(dag.levels@, lst@.subrange(i as int, lst@.len() as int), 0);
                lemma_slack_congruent(
                    dag.levels@,
                    lst@,
                    i as int,
                    dag.levels@,
                    lst@.subrange(i as int, lst@.len() as int),
                    0,
                );
                assert(lst@[i as int - 1] == prev && lst@[i as int] == curr);
                assert(slack_from(dag.levels@, lst@, i as int - 1) == (dag.levels@[curr.idx
                    as int] - dag.levels@[prev.idx as int] - 1) + slack_from(
                    dag.levels@,
                    lst@,
                    i as int,
                ));
                assert(dag.levels@[curr.idx as int] - dag.levels@[prev.idx as int] >= 2);
                assert(slack_from(dag.levels@, lst@, i as int) >= 0);
                assert(slack_from(dag.levels@, lst@, i as int - 1) >= 1);
                assert(dag.spec_len() < usize::MAX);
            }
            // A fresh connector node takes the level just below `prev`.
            let conn = dag.new_node();
            lst.insert(i, conn);
            dag.remove_edge(prev, curr);
            dag.add_edge(prev, conn);
            dag.add_edge(conn, curr);
            dag.update_node_rank_level(conn, prev_level + 1, None);
            created.push(conn);
            proof {
                let lv = dag.levels@;
                assert(dag.spec_level(conn.idx as int) == prev_level + 1);
                assert forall|j: int|
                    0 <= j < lst@.len() implies (#[trigger] lst@[j]).idx < dag.spec_len() by {
                    if j < i {
                        assert(lst@[j] == lst0[j]);
                    } else if j == i {
                    } else {
                        assert(lst@[j] == lst0[j - 1]);
                    }
                }
                assert forall|j: int|
                    0 <= j < lst@.len() && j != i implies dag.spec_level(
                    (#[trigger] lst@[j]).idx as int) == pre.spec_level(
                    if j < i {
                        lst0[j].idx as int
                    } else {
                        lst0[j - 1].idx as int
                    },
                ) by {
                    if j < i {
                        assert(lst@[j] == lst0[j]);
                        assert(lst0[j].idx < n0 + created@.len() - 1);
                    } else {
                        assert(lst@[j] == lst0[j - 1]);
                    }
                }
                assert(lst@ == lst0.insert(i as int, conn));
                assert(lst@.first() == lst0.first());
                assert(lst@.last() == lst0.last()) by {
                    assert(lst@[lst@.len() - 1] == lst0[lst0.len() - 1]);
                }
                assert(lv[conn.idx as int] == prev_level + 1);
                assert(lv[prev.idx as int] == prev_level) by {
                    assert(prev == lst0[i as int - 1]);
                }
                assert(lv[curr.idx as int] == curr_level) by {
                    assert(curr == lst0[i as int]);
                }
                // The slack of the remaining path dropped by one.
                assert(slack_from(lv, lst@, i as int) == slack_from(pre.levels@, lst0, i as int)
                    + (curr_level - prev_level - 2)) by {
                    lemma_slack_congruent(lv, lst@, i as int + 1, pre.levels@, lst0, i as int);
                    assert(lst@[i as int] == conn);
                    assert(lst@[i as int + 1] == lst0[i as int]);
                }
                assert(slack_from(lv, lst@, i as int - 1) == slack_from(
                    pre.levels@,
                    lst0,
                    i as int - 1,
                ) - 1) by {
                    assert(lst@[i as int - 1] == lst0[i as int - 1]);
                    assert(slack_from(pre.levels@, lst0, i as int - 1) == (pre.levels@[curr.idx
                        as int] - pre.levels@[prev.idx as int] - 1) + slack_from(
                        pre.levels@,
                        lst0,
                        i as int,
                    ));
                    assert(slack_from(lv, lst@, i as int - 1) == (lv[conn.idx as int] - lv[
                        prev.idx as int] - 1) + slack_from(lv, lst@, i as int));
                }
                lemma_slack_nonneg(
                    pre.levels@,
                    lst0.subrange(i as int, lst0.len() as int),
                    0,
                );
                lemma_slack_congruent(
                    pre.levels@,
                    lst0,
                    i as int,
                    pre.levels@,
                    lst0.subrange(i as int, lst0.len() as int),
                    0,
                );
            }
        }
    }
    created
}

} // verus!
