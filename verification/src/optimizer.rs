//! Optimization passes over the ranked DAG: reordering nodes within their
//! rows to reduce edge crossings, and sinking nodes to shorten edges.
//!
//! The crossing optimizer carries the law that matters here: after
//! `EdgeCrossOptimizer::optimize`, the global crossing count is no larger
//! than it was on entry, because the pass always restores the best ordering
//! it has seen.

use vstd::prelude::*;
use vstd::seq_lib::group_to_multiset_ensures;
use crate::base::Direction;
use crate::dag::DAG;
use crate::dag::Node;
use crate::dag::NodeHandle;

verus! {

broadcast use {
    group_to_multiset_ensures,
    vstd::multiset::group_multiset_axioms,
    vstd::std_specs::vec::axiom_spec_len,
};

/// Node `a` touches `x`: `x` is a successor or a predecessor of `a`.
pub open spec fn connected(nodes: Seq<Node>, a: int, x: NodeHandle) -> bool {
    nodes[a].successors@.contains(x) || nodes[a].predecessors@.contains(x)
}

/// The pair (crossings counted, edges of `b` seen) after scanning the first
/// `i` entries of `row`: a crossing is an edge of `a` met after an edge of
/// `b`.
pub open spec fn nc_scan(nodes: Seq<Node>, a: int, b: int, row: Seq<NodeHandle>, i: int) -> (
    nat,
    nat,
)
    decreases i,
{
    if i <= 0 {
        (0nat, 0nat)
    } else {
        let p = nc_scan(nodes, a, b, row, i - 1);
        let x = row[i - 1];
        (
            if connected(nodes, a, x) {
                p.0 + p.1
            } else {
                p.0
            },
            if connected(nodes, b, x) {
                p.1 + 1nat
            } else {
                p.1
            },
        )
    }
}

/// How many of the edges from `a` and `b` into `row` cross, when `a` stands
/// immediately before `b` in the neighboring row.
pub open spec fn spec_num_crossing(nodes: Seq<Node>, a: int, b: int, row: Seq<NodeHandle>) -> nat {
    nc_scan(nodes, a, b, row, row.len() as int).0
}

/// Crossings of the pairs `(first[i], first[u])` for `i < u < j`, against
/// `second`.
pub open spec fn ccr_inner(
    nodes: Seq<Node>,
    first: Seq<NodeHandle>,
    second: Seq<NodeHandle>,
    i: int,
    j: int,
) -> nat
    decreases j - i,
{
    if j <= i + 1 {
        0nat
    } else {
        ccr_inner(nodes, first, second, i, j - 1) + spec_num_crossing(
            nodes,
            first[i].idx as int,
            first[j - 1].idx as int,
            second,
        )
    }
}

/// Crossings of all ordered pairs drawn from the first `i` entries of
/// `first`, against `second`.
pub open spec fn ccr_outer(
    nodes: Seq<Node>,
    first: Seq<NodeHandle>,
    second: Seq<NodeHandle>,
    i: int,
) -> nat
    decreases i,
{
    if i <= 0 {
        0nat
    } else {
        ccr_outer(nodes, first, second, i - 1) + ccr_inner(
            nodes,
            first,
            second,
            i - 1,
            first.len() as int,
        )
    }
}

/// The crossing count between two neighboring rows.
pub open spec fn spec_cross_rows(
    nodes: Seq<Node>,
    first: Seq<NodeHandle>,
    second: Seq<NodeHandle>,
) -> nat {
    ccr_outer(nodes, first, second, first.len() as int)
}

/// The crossing count summed over the first `r` adjacent row pairs.
pub open spec fn total_cross(nodes: Seq<Node>, rows: Seq<Seq<NodeHandle>>, r: int) -> nat
    decreases r,
{
    if r <= 0 {
        0nat
    } else {
        total_cross(nodes, rows, r - 1) + spec_cross_rows(nodes, rows[r - 1], rows[r])
    }
}

/// The global crossing count of the drawing: crossings summed over all
/// pairs of neighboring rows.
pub open spec fn spec_crossings(nodes: Seq<Node>, rows: Seq<Seq<NodeHandle>>) -> nat {
    if rows.len() == 0 {
        0nat
    } else {
        total_cross(nodes, rows, rows.len() - 1)
    }
}

/// An upper bound for the crossing count of the first `r` adjacent row
/// pairs, in terms of the row lengths alone.
pub open spec fn cross_bound(rows: Seq<Seq<NodeHandle>>, r: int) -> int
    decreases r,
{
    if r <= 0 {
        0
    } else {
        cross_bound(rows, r - 1) + rows[r - 1].len() * rows[r - 1].len() * rows[r].len()
            * rows[r].len()
    }
}

/// The bound for all adjacent row pairs.
pub open spec fn spec_cross_bound(rows: Seq<Seq<NodeHandle>>) -> int {
    if rows.len() == 0 {
        0
    } else {
        cross_bound(rows, rows.len() - 1)
    }
}

/// Two row structures with the same number of rows that hold, row for row,
/// the same nodes (in possibly different orders).
pub open spec fn same_rows_content(r1: Seq<Seq<NodeHandle>>, r2: Seq<Seq<NodeHandle>>) -> bool {
    &&& r1.len() == r2.len()
    &&& forall|i: int| 0 <= i < r1.len() ==> (#[trigger] r1[i]).to_multiset() == r2[i].to_multiset()
}

/// Partial bounds never exceed the full bound.
proof fn lemma_cross_bound_mono(rows: Seq<Seq<NodeHandle>>, i: int, j: int)
    requires
        0 <= i <= j,
    ensures
        cross_bound(rows, i) <= cross_bound(rows, j),
    decreases j - i,
{
    if i < j {
        lemma_cross_bound_mono(rows, i, j - 1);
        assert(rows[j - 1].len() * rows[j - 1].len() * rows[j].len() * rows[j].len() >= 0) by (nonlinear_arith);
    }
}

/// The bound depends on the row lengths alone.
proof fn lemma_cross_bound_same_lens(r1: Seq<Seq<NodeHandle>>, r2: Seq<Seq<NodeHandle>>, r: int)
    requires
        r1.len() == r2.len(),
        forall|i: int| 0 <= i < r1.len() ==> (#[trigger] r1[i]).len() == r2[i].len(),
        r < r1.len(),
    ensures
        cross_bound(r1, r) == cross_bound(r2, r),
    decreases r,
{
    if r > 0 {
        lemma_cross_bound_same_lens(r1, r2, r - 1);
    }
}

/// True when `v` holds `x`.
fn contains_handle(v: &Vec<NodeHandle>, x: NodeHandle) -> (r: bool)
    ensures
        r == v@.contains(x),
{
    let n = v.len();
    let mut i: usize = 0;
    while i < n
        invariant
            i <= n,
            n == v@.len(),
            forall|j: int| 0 <= j < i ==> v@[j] != x,
        decreases n - i,
    {
        if v[i] == x {
            proof {
                assert(v@.contains(x));
            }
            return true;
        }
        i += 1;
    }
    proof {
        if v@.contains(x) {
            let k = choose|k: int| 0 <= k < v@.len() && v@[k] == x;
            assert(v@[k] != x);
        }
    }
    false
}

/// This optimization changes the order of nodes within a rank (the ordering
/// along the x-axis). The transformation tries to reduce the number of
/// edges that cross each other.
pub struct EdgeCrossOptimizer<'a> {
    pub dag: &'a mut DAG,
}

impl<'a> EdgeCrossOptimizer<'a> {
    pub fn new(dag: &'a mut DAG) -> (r: Self)
        ensures
            *r.dag == *old(dag),
            *final(dag) == *final(r.dag),
    {
        Self { dag }
    }


    /// Count how many of the edges of `a` and `b` into `row` intersect,
    /// when `a` stands before `b`. Both successor and predecessor edges
    /// count.
    fn num_crossing(dag: &DAG, a: NodeHandle, b: NodeHandle, row: &Vec<NodeHandle>) -> (r: usize)
        requires
            dag.wf(),
            a.idx < dag.spec_len(),
            b.idx < dag.spec_len(),
            row@.len() * row@.len() <= usize::MAX,
        ensures
            r == spec_num_crossing(dag.nodes@, a.idx as int, b.idx as int, row@),
            r <= row@.len() * row@.len(),
    {
        let mut sum: usize = 0;
        // Record the number of edges that previously connected with node B.
        let mut num_b: usize = 0;
        let n = row.len();
        let mut i: usize = 0;
        while i < n
            invariant
                dag.wf(),
                a.idx < dag.spec_len(),
                b.idx < dag.spec_len(),
                n == row@.len(),
                n * n <= usize::MAX,
                i <= n,
                (sum as nat, num_b as nat) == nc_scan(
                    dag.nodes@,
                    a.idx as int,
                    b.idx as int,
                    row@,
                    i as int,
                ),
                num_b <= i,
                sum <= i * n,
            decreases n - i,
        {
            let node = row[i];
            let is_a1 = contains_handle(dag.successors(a), node);
            let is_a2 = contains_handle(dag.predecessors(a), node);
            let is_b1 = contains_handle(dag.successors(b), node);
            let is_b2 = contains_handle(dag.predecessors(b), node);
            proof {
                assert(i * n + n == (i + 1) * n) by (nonlinear_arith);
                assert((i + 1) * n <= n * n) by (nonlinear_arith)
                    requires
                        0 <= i,
                        i < n,
                ;
                assert(num_b <= n);
            }
            if is_a1 || is_a2 {
                sum += num_b;
            }
            if is_b1 || is_b2 {
                num_b += 1;
            }
            i += 1;
        }
        sum
    }

    /// Count the crossings between two neighboring rows: for each ordered
    /// pair of nodes of `first`, the crossings of their edges into
    /// `second`.
    fn count_crossing_in_rows(dag: &DAG, first: &Vec<NodeHandle>, second: &Vec<NodeHandle>) -> (r:
        usize)
        requires
            dag.wf(),
            forall|k: int| 0 <= k < first@.len() ==> (#[trigger] first@[k]).idx < dag.spec_len(),
            first@.len() * first@.len() * second@.len() * second@.len() <= usize::MAX,
        ensures
            r == spec_cross_rows(dag.nodes@, first@, second@),
            r <= first@.len() * first@.len() * second@.len() * second@.len(),
    {
        let fl = first.len();
        let sl = second.len();
        if fl < 2 {
            proof {
                if fl == 1 {
                    assert(ccr_inner(dag.nodes@, first@, second@, 0, 1) == 0) by {
                        reveal_with_fuel(ccr_inner, 2);
                    }
                    assert(spec_cross_rows(dag.nodes@, first@, second@) == 0) by {
                        reveal_with_fuel(ccr_outer, 2);
                        assert(first@.len() as int == 1);
                        assert(ccr_outer(dag.nodes@, first@, second@, 0) == 0);
                        assert(ccr_inner(dag.nodes@, first@, second@, 0, 1) == 0) by {
                            reveal_with_fuel(ccr_inner, 2);
                        }
                    }
                }
                assert(first@.len() * first@.len() * second@.len() * second@.len() >= 0)
                    by (nonlinear_arith);
            }
            return 0;
        }
        let mut sum: usize = 0;
        // Check for each pair of nodes a,b where b comes after a.
        let mut i: usize = 0;
        while i < fl
            invariant
                dag.wf(),
                forall|k: int|
                    0 <= k < first@.len() ==> (#[trigger] first@[k]).idx < dag.spec_len(),
                fl == first@.len(),
                sl == second@.len(),
                fl * fl * sl * sl <= usize::MAX,
                i <= fl,
                sum == ccr_outer(dag.nodes@, first@, second@, i as int),
                sum <= i * fl * sl * sl,
            decreases fl - i,
        {
            let ghost outer_pre = sum as nat;
            let mut j = i + 1;
            let mut inner: usize = 0;
            while j < fl
                invariant
                    dag.wf(),
                    forall|k: int|
                        0 <= k < first@.len() ==> (#[trigger] first@[k]).idx < dag.spec_len(),
                    fl == first@.len(),
                    sl == second@.len(),
                    fl * fl * sl * sl <= usize::MAX,
                    i < fl,
                    i + 1 <= j <= fl,
                    inner == ccr_inner(dag.nodes@, first@, second@, i as int, j as int),
                    inner <= (j - i - 1) * (sl * sl),
                decreases fl - j,
            {
                let a = first[i];
                let b = first[j];
                proof {
                    assert(sl * sl <= fl * fl * sl * sl) by (nonlinear_arith)
                        requires
                            2 <= fl,
                            0 <= sl,
                    ;
                    assert((j - i - 1) * (sl * sl) + sl * sl == (j - i) * (sl * sl))
                        by (nonlinear_arith);
                    assert((j - i) * (sl * sl) <= fl * (sl * sl)) by (nonlinear_arith)
                        requires
                            0 <= i,
                            j <= fl,
                            0 <= sl,
                    ;
                    assert(fl * (sl * sl) <= fl * fl * sl * sl) by (nonlinear_arith)
                        requires
                            2 <= fl,
                            0 <= sl,
                    ;
                }
                let c = Self::num_crossing(dag, a, b, second);
                proof {
                    assert(c <= sl * sl);
                }
                inner += c;
                j += 1;
            }
            proof {
                assert(outer_pre + inner == ccr_outer(dag.nodes@, first@, second@, i + 1));
                assert(inner <= (fl - i - 1) * (sl * sl));
                assert(i * fl * sl * sl + (fl - i - 1) * (sl * sl) <= (i + 1) * fl * sl * sl)
                    by (nonlinear_arith)
                    requires
                        0 <= i,
                        i < fl,
                        0 <= sl,
                ;
                assert((i + 1) * fl * sl * sl <= fl * fl * sl * sl) by (nonlinear_arith)
                    requires
                        0 <= i,
                        i < fl,
                        0 <= sl,
                ;
            }
            sum += inner;
            i += 1;
        }
        sum
    }

    /// The global crossing count: crossings summed over every pair of
    /// neighboring rows.
    fn count_crossed_edges(dag: &DAG) -> (r: usize)
        requires
            dag.wf(),
            dag.rows().len() > 0,
            spec_cross_bound(dag.rows()) <= usize::MAX,
        ensures
            r == spec_crossings(dag.nodes@, dag.rows()),
            r <= spec_cross_bound(dag.rows()),
    {
        let mut sum: usize = 0;
        let last = dag.num_levels() - 1;
        let mut row_idx: usize = 0;
        // Compare each row to the row afterwards.
        while row_idx < last
            invariant
                dag.wf(),
                last == dag.rows().len() - 1,
                spec_cross_bound(dag.rows()) <= usize::MAX,
                row_idx <= last,
                sum == total_cross(dag.nodes@, dag.rows(), row_idx as int),
                sum <= cross_bound(dag.rows(), row_idx as int),
            decreases last - row_idx,
        {
            let first_row = dag.row(row_idx);
            let second_row = dag.row(row_idx + 1);
            proof {
                assert(first_row@.len() * first_row@.len() * second_row@.len()
                    * second_row@.len() >= 0) by (nonlinear_arith);
                lemma_cross_bound_mono(dag.rows(), row_idx + 1, last as int);
                assert forall|k: int| 0 <= k < first_row@.len() implies (
                #[trigger] first_row@[k]).idx < dag.spec_len() by {
                    dag.lemma_row_member_valid(row_idx as int, k);
                }
            }
            let c = Self::count_crossing_in_rows(dag, first_row, second_row);
            sum += c;
            row_idx += 1;
        }
        sum
    }
}


/// Row structures that hold the same nodes row for row also hold the same
/// nodes overall.
proof fn lemma_rows_ms_congruence(r1: Seq<Seq<NodeHandle>>, r2: Seq<Seq<NodeHandle>>)
    requires
        same_rows_content(r1, r2),
    ensures
        crate::dag::rows_ms(r1) == crate::dag::rows_ms(r2),
    decreases r1.len(),
{
    if r1.len() > 0 {
        lemma_rows_ms_congruence(r1.drop_last(), r2.drop_last());
        assert(crate::dag::rows_ms(r1) =~= crate::dag::rows_ms(r2));
    } else {
        assert(crate::dag::rows_ms(r1) =~= crate::dag::rows_ms(r2));
    }
}

/// Replacing the rows of a well-formed graph by rows with the same contents
/// keeps the graph well-formed.
pub proof fn lemma_wf_rows_permuted(d1: DAG, d2: DAG)
    requires
        d1.wf(),
        d2.nodes == d1.nodes,
        d2.levels == d1.levels,
        same_rows_content(d1.rows(), d2.rows()),
    ensures
        d2.wf(),
{
    lemma_rows_ms_congruence(d1.rows(), d2.rows());
    assert forall|i: int| 0 <= i < d2.spec_len()
        implies 0 <= #[trigger] d2.spec_level(i) < d2.rows().len() && d2.rows()[d2.spec_level(
        i,
    )].contains(crate::dag::nh(i)) by {
        let l = d1.spec_level(i);
        assert(d1.rows()[l].contains(crate::dag::nh(i)));
        assert(d1.rows()[l].to_multiset().count(crate::dag::nh(i)) > 0);
        assert(d2.rows()[l].to_multiset().count(crate::dag::nh(i)) > 0);
    }
    assert forall|a: usize, b: usize|
        a < d2.spec_len() && b < d2.spec_len() implies #[trigger] d2.succ_count(a, b)
        == d2.pred_count(a, b) by {
        assert(d1.succ_count(a, b) == d1.pred_count(a, b));
    }
    assert forall|a: int, j: int|
        0 <= a < d2.spec_len() && 0 <= j < d2.succ_of(a).len() implies (
    #[trigger] d2.succ_of(a)[j]).idx < d2.spec_len() by {
        assert((d1.succ_of(a)[j]).idx < d1.spec_len());
    }
    assert forall|a: int, j: int|
        0 <= a < d2.spec_len() && 0 <= j < d2.pred_of(a).len() implies (
    #[trigger] d2.pred_of(a)[j]).idx < d2.spec_len() by {
        assert((d1.pred_of(a)[j]).idx < d1.spec_len());
    }
}

/// A single row holds no more nodes than the graph has.
proof fn lemma_row_len_bound(d: DAG, r: int)
    requires
        d.wf(),
        0 <= r < d.rows().len(),
    ensures
        d.rows()[r].len() <= d.spec_len(),
    decreases d.rows().len(),
{
    lemma_rows_ms_sub_len(d.rows(), r);
    assert(crate::dag::rows_ms(d.rows()).len() == crate::dag::all_handles(d.spec_len()).len());
}

/// A row contributes no more than the total held by all rows.
proof fn lemma_rows_ms_sub_len(rows: Seq<Seq<NodeHandle>>, r: int)
    requires
        0 <= r < rows.len(),
    ensures
        crate::dag::rows_ms(rows).len() >= rows[r].to_multiset().len(),
    decreases rows.len(),
{
    if r == rows.len() - 1 {
    } else {
        lemma_rows_ms_sub_len(rows.drop_last(), r);
        assert(rows.drop_last()[r] == rows[r]);
    }
}

impl<'a> EdgeCrossOptimizer<'a> {
    /// Swap two places of one row.
    fn swap_in_row(dag: &mut DAG, level: usize, x: usize, y: usize)
        requires
            old(dag).wf(),
            level < old(dag).rows().len(),
            x < old(dag).rows()[level as int].len(),
            y < old(dag).rows()[level as int].len(),
        ensures
            final(dag).wf(),
            final(dag).nodes == old(dag).nodes,
            final(dag).levels == old(dag).levels,
            same_rows_content(old(dag).rows(), final(dag).rows()),
            forall|i: int|
                0 <= i < old(dag).rows().len() && i != level ==> final(dag).rows()[i] == old(
                    dag,
                ).rows()[i],
            final(dag).rows()[level as int] == old(dag).rows()[level as int].update(
                x as int,
                old(dag).rows()[level as int][y as int],
            ).update(y as int, old(dag).rows()[level as int][x as int]),
    {
        let ghost row0 = dag.rows()[level as int];
        let a = dag.ranks[level][x];
        let b = dag.ranks[level][y];
        dag.ranks[level][x] = b;
        dag.ranks[level][y] = a;
        proof {
            let this = *final(dag);
            assert(this.rows() =~= old(dag).rows().update(
                level as int,
                row0.update(x as int, b).update(y as int, a),
            ));
            assert(row0.update(x as int, b).update(y as int, a).to_multiset()
                == row0.to_multiset()) by {
                if x == y {
                    assert(row0.update(x as int, b).update(y as int, a) =~= row0);
                } else {
                    let m1 = row0.update(x as int, b);
                    assert(m1.to_multiset() == row0.to_multiset().insert(b).remove(a));
                    assert(m1[y as int] == b);
                    assert(m1.update(y as int, a).to_multiset() == m1.to_multiset().insert(
                        a,
                    ).remove(b));
                    assert(m1.to_multiset().insert(a).remove(b) =~= row0.to_multiset());
                }
            }
            assert(same_rows_content(old(dag).rows(), this.rows()));
            lemma_wf_rows_permuted(*old(dag), this);
        }
    }

    /// Shuffle the nodes in all of the ranks with a fixed index permutation.
    pub fn perturb_rank(&mut self)
        requires
            old(self).dag.wf(),
            old(self).dag.spec_len() * 17 <= usize::MAX,
        ensures
            final(self).dag.wf(),
            final(self).dag.nodes == old(self).dag.nodes,
            final(self).dag.levels == old(self).dag.levels,
            same_rows_content(old(self).dag.rows(), final(self).dag.rows()),
    {
        let nl = self.dag.num_levels();
        let mut i: usize = 0;
        while i < nl
            invariant
                self.dag.wf(),
                self.dag.spec_len() == old(self).dag.spec_len(),
                old(self).dag.spec_len() * 17 <= usize::MAX,
                self.dag.nodes == old(self).dag.nodes,
                self.dag.levels == old(self).dag.levels,
                nl == self.dag.rows().len(),
                i <= nl,
                same_rows_content(old(self).dag.rows(), self.dag.rows()),
            decreases nl - i,
        {
            let len = self.dag.ranks[i].len();
            proof {
                lemma_row_len_bound(*self.dag, i as int);
                assert(self.dag.rows()[i as int].to_multiset().len() == len);
            }
            let mut j: usize = 0;
            while j < len
                invariant
                    self.dag.wf(),
                    self.dag.spec_len() == old(self).dag.spec_len(),
                    old(self).dag.spec_len() * 17 <= usize::MAX,
                    self.dag.nodes == old(self).dag.nodes,
                    self.dag.levels == old(self).dag.levels,
                    nl == self.dag.rows().len(),
                    i < nl,
                    j <= len,
                    len == self.dag.rows()[i as int].len(),
                    len <= old(self).dag.spec_len(),
                    same_rows_content(old(self).dag.rows(), self.dag.rows()),
                decreases len - j,
            {
                proof {
                    let ghost nn = old(self).dag.spec_len() as int;
                    assert(j * 17 <= len * 17 && (len as int) * 17 <= nn * 17) by (nonlinear_arith)
                        requires
                            0 <= j <= len,
                            len <= nn,
                    ;
                }
                let tgt = (j * 17) % len;
                let ghost pre = *self.dag;
                Self::swap_in_row(self.dag, i, tgt, j);
                proof {
                    assert(same_rows_content(old(self).dag.rows(), self.dag.rows()));
                }
                j += 1;
            }
            i += 1;
        }
    }

    /// Move the elements of every rank one place to the left, wrapping the
    /// first element around, to perturb the graph.
    pub fn rotate_rank(&mut self)
        requires
            old(self).dag.wf(),
        ensures
            final(self).dag.wf(),
            final(self).dag.nodes == old(self).dag.nodes,
            final(self).dag.levels == old(self).dag.levels,
            same_rows_content(old(self).dag.rows(), final(self).dag.rows()),
    {
        let nl = self.dag.num_levels();
        let mut i: usize = 0;
        while i < nl
            invariant
                self.dag.wf(),
                self.dag.nodes == old(self).dag.nodes,
                self.dag.levels == old(self).dag.levels,
                nl == self.dag.rows().len(),
                i <= nl,
                same_rows_content(old(self).dag.rows(), self.dag.rows()),
            decreases nl - i,
        {
            let len = self.dag.ranks[i].len();
            if len > 0 {
                let ghost pre = *self.dag;
                let ghost row0 = pre.rows()[i as int];
                let head = self.dag.ranks[i].remove(0);
                self.dag.ranks[i].push(head);
                proof {
                    let this = *self.dag;
                    assert(this.rows() =~= pre.rows().update(
                        i as int,
                        row0.remove(0).push(row0[0]),
                    ));
                    assert(row0.remove(0).push(row0[0]).to_multiset() == row0.to_multiset()) by {
                        assert(row0.remove(0).to_multiset() == row0.to_multiset().remove(row0[0]));
                        assert(row0.to_multiset().count(row0[0]) > 0) by {
                            assert(row0.contains(row0[0]));
                        }
                        assert(row0.to_multiset().remove(row0[0]).insert(row0[0])
                            =~= row0.to_multiset());
                    }
                    assert(same_rows_content(pre.rows(), this.rows()));
                    lemma_wf_rows_permuted(pre, this);
                    assert(same_rows_content(old(self).dag.rows(), this.rows()));
                }
            }
            i += 1;
        }
    }
}


/// The rows of a rank structure, as sequences.
pub open spec fn rows_view(v: Seq<Vec<NodeHandle>>) -> Seq<Seq<NodeHandle>> {
    Seq::new(v.len(), |i: int| v[i]@)
}

/// An exact copy of a row.
fn clone_row(v: &Vec<NodeHandle>) -> (r: Vec<NodeHandle>)
    ensures
        r@ == v@,
{
    let mut r: Vec<NodeHandle> = Vec::new();
    let n = v.len();
    let mut i: usize = 0;
    while i < n
        invariant
            i <= n,
            n == v@.len(),
            r@ =~= v@.take(i as int),
        decreases n - i,
    {
        proof {
            assert(v@.take(i + 1).drop_last() =~= v@.take(i as int));
        }
        r.push(v[i]);
        i += 1;
    }
    proof {
        assert(v@.take(n as int) =~= v@);
    }
    r
}

/// An exact copy of the whole rank structure.
fn clone_rows(v: &Vec<Vec<NodeHandle>>) -> (r: Vec<Vec<NodeHandle>>)
    ensures
        r@.len() == v@.len(),
        forall|i: int| 0 <= i < v@.len() ==> #[trigger] r@[i]@ == v@[i]@,
{
    let mut r: Vec<Vec<NodeHandle>> = Vec::new();
    let n = v.len();
    let mut i: usize = 0;
    while i < n
        invariant
            i <= n,
            n == v@.len(),
            r@.len() == i,
            forall|j: int| 0 <= j < i ==> #[trigger] r@[j]@ == v@[j]@,
        decreases n - i,
    {
        r.push(clone_row(&v[i]));
        i += 1;
    }
    r
}

impl<'a> EdgeCrossOptimizer<'a> {
    /// One left-to-right scan over the row at `row_idx`: swap neighboring
    /// nodes whenever the swap strictly lowers the crossings counted against
    /// the scanned neighbor rows. Returns whether anything was swapped.
    fn swap_crossed_edges_on_row(&mut self, row_idx: usize, dir: Direction) -> (changed: bool)
        requires
            old(self).dag.wf(),
            row_idx < old(self).dag.rows().len(),
            2 * old(self).dag.spec_len() * old(self).dag.spec_len() <= usize::MAX,
        ensures
            final(self).dag.wf(),
            final(self).dag.nodes == old(self).dag.nodes,
            final(self).dag.levels == old(self).dag.levels,
            same_rows_content(old(self).dag.rows(), final(self).dag.rows()),
            forall|i: int|
                0 <= i < old(self).dag.rows().len() && i != row_idx ==> final(self).dag.rows()[i]
                    == old(self).dag.rows()[i],
    {
        let ghost n = old(self).dag.spec_len() as int;
        let num_rows = self.dag.num_levels();
        let prev_row: Vec<NodeHandle> = if row_idx > 0 && dir.is_up() {
            clone_row(self.dag.row(row_idx - 1))
        } else {
            Vec::new()
        };
        let next_row: Vec<NodeHandle> = if row_idx + 1 < num_rows && dir.is_down() {
            clone_row(self.dag.row(row_idx + 1))
        } else {
            Vec::new()
        };
        proof {
            if row_idx > 0 && dir.spec_is_up() {
                lemma_row_len_bound(*self.dag, row_idx - 1);
            }
            if row_idx + 1 < num_rows && dir.spec_is_down() {
                lemma_row_len_bound(*self.dag, row_idx + 1);
            }
            lemma_row_len_bound(*self.dag, row_idx as int);
            assert(prev_row@.len() * prev_row@.len() <= n * n) by (nonlinear_arith)
                requires
                    0 <= prev_row@.len() <= n,
            ;
            assert(next_row@.len() * next_row@.len() <= n * n) by (nonlinear_arith)
                requires
                    0 <= next_row@.len() <= n,
            ;
            assert(n * n + n * n == 2 * n * n) by (nonlinear_arith);
        }
        let mut row = clone_row(self.dag.row(row_idx));
        proof {
            assert forall|k: int| 0 <= k < row@.len() implies (#[trigger] row@[k]).idx < n by {
                self.dag.lemma_row_member_valid(row_idx as int, k);
            }
        }
        if row.len() < 2 {
            return false;
        }
        let ghost row0 = old(self).dag.rows()[row_idx as int];
        let mut changed = false;
        let last = row.len() - 1;
        let mut i: usize = 0;
        // For each two consecutive elements in the row:
        while i < last
            invariant
                self.dag == old(self).dag,
                self.dag.wf(),
                n == self.dag.spec_len(),
                row_idx < self.dag.rows().len(),
                prev_row@.len() * prev_row@.len() <= n * n,
                next_row@.len() * next_row@.len() <= n * n,
                2 * n * n <= usize::MAX,
                last == row@.len() - 1,
                i <= last,
                row@.to_multiset() == row0.to_multiset(),
                row0 == self.dag.rows()[row_idx as int],
                forall|k: int| 0 <= k < row@.len() ==> (#[trigger] row@[k]).idx < n,
            decreases last - i,
        {
            let a = row[i];
            let b = row[i + 1];
            proof {
                assert(n * n <= 2 * n * n && 0 <= n * n) by (nonlinear_arith)
                    requires
                        n >= 0,
                ;
            }
            // Figure out whether the edges of A cross the edges of B, and
            // the other way round, against the scanned neighbor rows.
            let mut ab: usize = 0;
            let mut ba: usize = 0;
            let c1 = Self::num_crossing(self.dag, a, b, &prev_row);
            let c2 = Self::num_crossing(self.dag, b, a, &prev_row);
            let c3 = Self::num_crossing(self.dag, a, b, &next_row);
            let c4 = Self::num_crossing(self.dag, b, a, &next_row);
            proof {
                assert(n * n + n * n == 2 * n * n) by (nonlinear_arith);
                assert(c1 + c3 <= 2 * n * n && c2 + c4 <= 2 * n * n);
            }
            ab = c1 + c3;
            ba = c2 + c4;
            // Swap the nodes.
            if ab > ba {
                let ghost rpre = row@;
                row[i] = b;
                let ghost rmid = row@;
                row[i + 1] = a;
                changed = true;
                proof {
                    assert(rmid.to_multiset() == rpre.to_multiset().insert(b).remove(a));
                    assert(rmid[i + 1] == b);
                    assert(row@.to_multiset() == rmid.to_multiset().insert(a).remove(b));
                    assert(rpre.to_multiset().count(a) > 0) by {
                        assert(rpre.contains(a));
                    }
                    assert(row@.to_multiset() =~= rpre.to_multiset());
                }
            }
            i += 1;
        }
        if changed {
            let ghost pre = *self.dag;
            let r = self.dag.row_mut(row_idx);
            *r = row;
            proof {
                let this = *self.dag;
                assert(this.rows() =~= pre.rows().update(row_idx as int, row@));
                assert(same_rows_content(pre.rows(), this.rows()));
                lemma_wf_rows_permuted(pre, this);
            }
        }
        changed
    }

    /// Scan every row repeatedly, swapping neighboring nodes where that
    /// lowers the crossings, until a whole sweep changes nothing or the
    /// pass budget of one sweep per crossing observed at entry runs out.
    fn swap_crossed_edges(&mut self, dir: Direction)
        requires
            old(self).dag.wf(),
            old(self).dag.rows().len() > 0,
            spec_cross_bound(old(self).dag.rows()) < usize::MAX,
            2 * old(self).dag.spec_len() * old(self).dag.spec_len() <= usize::MAX,
        ensures
            final(self).dag.wf(),
            final(self).dag.nodes == old(self).dag.nodes,
            final(self).dag.levels == old(self).dag.levels,
            same_rows_content(old(self).dag.rows(), final(self).dag.rows()),
    {
        let mut fuel = Self::count_crossed_edges(self.dag) + 1;
        let mut changed = true;
        while changed && fuel > 0
            invariant
                self.dag.wf(),
                self.dag.nodes == old(self).dag.nodes,
                self.dag.levels == old(self).dag.levels,
                self.dag.spec_len() == old(self).dag.spec_len(),
                2 * old(self).dag.spec_len() * old(self).dag.spec_len() <= usize::MAX,
                same_rows_content(old(self).dag.rows(), self.dag.rows()),
            decreases fuel,
        {
            changed = false;
            fuel = fuel - 1;
            if dir.is_down() {
                let nl = self.dag.num_levels();
                let mut i: usize = 0;
                while i < nl
                    invariant
                        self.dag.wf(),
                        self.dag.nodes == old(self).dag.nodes,
                        self.dag.levels == old(self).dag.levels,
                        self.dag.spec_len() == old(self).dag.spec_len(),
                        2 * old(self).dag.spec_len() * old(self).dag.spec_len() <= usize::MAX,
                        nl == self.dag.rows().len(),
                        i <= nl,
                        same_rows_content(old(self).dag.rows(), self.dag.rows()),
                    decreases nl - i,
                {
                    let c = self.swap_crossed_edges_on_row(i, dir);
                    changed = changed || c;
                    i += 1;
                }
            }
            if dir.is_up() {
                let nl = self.dag.num_levels();
                let mut i: usize = nl;
                while i > 0
                    invariant
                        self.dag.wf(),
                        self.dag.nodes == old(self).dag.nodes,
                        self.dag.levels == old(self).dag.levels,
                        self.dag.spec_len() == old(self).dag.spec_len(),
                        2 * old(self).dag.spec_len() * old(self).dag.spec_len() <= usize::MAX,
                        nl == self.dag.rows().len(),
                        i <= nl,
                        same_rows_content(old(self).dag.rows(), self.dag.rows()),
                    decreases i,
                {
                    i -= 1;
                    let c = self.swap_crossed_edges_on_row(i, dir);
                    changed = changed || c;
                }
            }
        }
    }

    /// Reorder the nodes within their ranks, trying to lower the number of
    /// edge crossings. The best ordering seen over all rounds is restored at
    /// the end, so the crossing count never rises: see the last clause.
    pub fn optimize(&mut self)
        requires
            old(self).dag.wf(),
            old(self).dag.spec_acyclic(),
            old(self).dag.rows().len() > 0,
            spec_cross_bound(old(self).dag.rows()) < usize::MAX,
            2 * old(self).dag.spec_len() * old(self).dag.spec_len() <= usize::MAX,
            old(self).dag.spec_len() * 17 <= usize::MAX,
        ensures
            final(self).dag.wf(),
            final(self).dag.nodes == old(self).dag.nodes,
            final(self).dag.levels == old(self).dag.levels,
            same_rows_content(old(self).dag.rows(), final(self).dag.rows()),
            spec_crossings(final(self).dag.nodes@, final(self).dag.rows()) <= spec_crossings(
                old(self).dag.nodes@,
                old(self).dag.rows(),
            ),
    {
        self.dag.verify();
        let mut best_rank = clone_rows(self.dag.ranks());
        let mut best_cnt = Self::count_crossed_edges(self.dag);
        let ghost entry_cnt = spec_crossings(old(self).dag.nodes@, old(self).dag.rows());
        proof {
            assert(rows_view(best_rank@) =~= self.dag.rows());
            assert(rows_view(best_rank@) == self.dag.rows());
        }
        let mut i: usize = 0;
        while i < 50
            invariant
                self.dag.wf(),
                self.dag.nodes == old(self).dag.nodes,
                self.dag.levels == old(self).dag.levels,
                self.dag.spec_len() == old(self).dag.spec_len(),
                spec_cross_bound(old(self).dag.rows()) < usize::MAX,
                2 * old(self).dag.spec_len() * old(self).dag.spec_len() <= usize::MAX,
                old(self).dag.spec_len() * 17 <= usize::MAX,
                i <= 50,
                same_rows_content(old(self).dag.rows(), self.dag.rows()),
                old(self).dag.rows().len() > 0,
                same_rows_content(old(self).dag.rows(), rows_view(best_rank@)),
                best_cnt == spec_crossings(self.dag.nodes@, rows_view(best_rank@)),
                best_cnt <= entry_cnt,
            decreases 50 - i,
        {
            proof {
                lemma_same_content_same_bound(old(self).dag.rows(), self.dag.rows());
            }
            let dir = if i % 4 == 0 {
                Direction::Both
            } else if i % 4 == 1 {
                Direction::Up
            } else {
                Direction::Down
            };
            self.swap_crossed_edges(dir);
            proof {
                lemma_same_content_same_bound(old(self).dag.rows(), self.dag.rows());
            }
            let new_cnt = Self::count_crossed_edges(self.dag);
            if new_cnt < best_cnt {
                best_rank = clone_rows(self.dag.ranks());
                best_cnt = new_cnt;
                proof {
                    assert(rows_view(best_rank@) =~= self.dag.rows());
                    assert(rows_view(best_rank@) == self.dag.rows());
                }
            }
            self.rotate_rank();
            if i % 10 == 0 {
                self.perturb_rank();
            }
            i += 1;
        }
        let ghost pre = *self.dag;
        let ghost best_snap = best_rank@;
        self.dag.ranks = best_rank;
        proof {
            let this = *self.dag;
            assert(this.ranks@ == best_snap);
            assert forall|i: int| 0 <= i < this.rows().len() implies this.rows()[i]
                == rows_view(best_snap)[i] by {
                assert(this.rows()[i] == this.ranks@[i]@);
            }
            assert(this.rows() =~= rows_view(best_snap));
            assert(this.rows() == rows_view(best_snap));
            assert(same_rows_content(pre.rows(), this.rows())) by {
                assert forall|i: int| 0 <= i < pre.rows().len() implies (
                #[trigger] pre.rows()[i]).to_multiset() == this.rows()[i].to_multiset() by {
                    assert((old(self).dag.rows()[i]).to_multiset() == pre.rows()[i].to_multiset());
                    assert((old(self).dag.rows()[i]).to_multiset() == rows_view(best_snap)[
                        i].to_multiset());
                }
            }
            lemma_wf_rows_permuted(pre, this);
            assert(spec_crossings(this.nodes@, this.rows()) == best_cnt);
        }
    }
}

/// Row structures with the same contents have the same crossing bound.
proof fn lemma_same_content_same_bound(r1: Seq<Seq<NodeHandle>>, r2: Seq<Seq<NodeHandle>>)
    requires
        same_rows_content(r1, r2),
    ensures
        spec_cross_bound(r2) == spec_cross_bound(r1),
        r2.len() == r1.len(),
{
    assert forall|i: int| 0 <= i < r1.len() implies (#[trigger] r1[i]).len() == r2[i].len() by {
        assert(r1[i].to_multiset() == r2[i].to_multiset());
        assert(r1[i].to_multiset().len() == r1[i].len());
        assert(r2[i].to_multiset().len() == r2[i].len());
    }
    if r1.len() > 0 {
        lemma_cross_bound_same_lens(r1, r2, r1.len() - 1);
    }
}


/// The least level among the first `j` successors of `node`, starting from
/// the node count (the value the sink scan starts from).
pub open spec fn min_succ_from(d: DAG, node: int, j: int) -> int
    decreases j,
{
    if j <= 0 {
        d.spec_len() as int
    } else {
        let prev = min_succ_from(d, node, j - 1);
        let lv = d.spec_level(d.succ_of(node)[j - 1].idx as int);
        if lv < prev {
            lv
        } else {
            prev
        }
    }
}

/// The least successor level, over all successors of `node`.
pub open spec fn spec_min_succ_level(d: DAG, node: int) -> int {
    min_succ_from(d, node, d.succ_of(node).len() as int)
}

/// When a node sinks: it has an edge, no more backward than forward edges,
/// and its nearest successor sits more than one level below it.
pub open spec fn sink_cond(d: DAG, node: int) -> bool {
    &&& d.pred_of(node).len() <= d.succ_of(node).len()
    &&& !(d.pred_of(node).len() == 0 && d.succ_of(node).len() == 0)
    &&& spec_min_succ_level(d, node) > d.spec_level(node) + 1
}

/// The sum of the first `k` node levels.
pub open spec fn level_sum(levels: Seq<usize>, k: int) -> int
    decreases k,
{
    if k <= 0 {
        0
    } else {
        level_sum(levels, k - 1) + levels[k - 1]
    }
}

/// Changing one level changes the sum by the difference.
proof fn lemma_level_sum_update(levels: Seq<usize>, i: int, v: usize, k: int)
    requires
        0 <= i < levels.len(),
        k <= levels.len(),
    ensures
        level_sum(levels.update(i, v), k) == level_sum(levels, k) + if i < k {
            v - levels[i]
        } else {
            0
        },
    decreases k,
{
    if k > 0 {
        lemma_level_sum_update(levels, i, v, k - 1);
    }
}

/// When every level is below `cap`, the sum of `k` of them is below
/// `k * cap`.
proof fn lemma_level_sum_bound(levels: Seq<usize>, k: int, cap: int)
    requires
        0 <= k <= levels.len(),
        forall|v: int| 0 <= v < levels.len() ==> (#[trigger] levels[v]) < cap,
    ensures
        0 <= level_sum(levels, k) <= k * cap,
    decreases k,
{
    if k > 0 {
        lemma_level_sum_bound(levels, k - 1, cap);
        assert((k - 1) * cap + cap == k * cap) by (nonlinear_arith);
        assert(levels[k - 1] < cap);
    } else {
        assert(k * cap == 0) by (nonlinear_arith)
            requires
                k == 0,
        ;
    }
}

/// The measure that node sinking decreases: how far all the nodes sit above
/// the bottom row, summed.
pub open spec fn sink_measure(d: DAG) -> int {
    d.spec_len() * d.rows().len() - level_sum(d.levels@, d.spec_len() as int)
}

/// This optimization sinks nodes in an attempt to shorten the length of the
/// edges that run through the graph.
pub struct RankOptimizer<'a> {
    pub dag: &'a mut DAG,
}

impl<'a> RankOptimizer<'a> {
    pub fn new(dag: &'a mut DAG) -> (r: Self)
        ensures
            *r.dag == *old(dag),
            *final(dag) == *final(r.dag),
    {
        Self { dag }
    }

    /// Move `node` down to just above its nearest successor. The node moves
    /// exactly when the sink condition holds: it has an edge, no more
    /// backward than forward edges, and its nearest successor sits more
    /// than one level below. A move places it at the least successor level
    /// minus one (appended to that row), changes no other node's level, and
    /// strictly raises the sum of the node levels.
    pub fn try_to_sink_node(&mut self, node: NodeHandle) -> (r: bool)
        requires
            old(self).dag.wf(),
            node.idx < old(self).dag.spec_len(),
        ensures
            final(self).dag.wf(),
            final(self).dag.nodes == old(self).dag.nodes,
            final(self).dag.spec_len() == old(self).dag.spec_len(),
            final(self).dag.rows().len() == old(self).dag.rows().len(),
            r == sink_cond(*old(self).dag, node.idx as int),
            !r ==> *final(self).dag == *old(self).dag,
            r ==> final(self).dag.levels@ == old(self).dag.levels@.update(
                node.idx as int,
                (spec_min_succ_level(*old(self).dag, node.idx as int) - 1) as usize,
            ),
            r ==> ({
                let curr = old(self).dag.spec_level(node.idx as int);
                let nl = spec_min_succ_level(*old(self).dag, node.idx as int) - 1;
                let shrunk = old(self).dag.rows().update(
                    curr,
                    old(self).dag.rows()[curr].remove(
                        crate::dag::first_index_of(old(self).dag.rows()[curr], node),
                    ),
                );
                final(self).dag.rows() == shrunk.update(nl, shrunk[nl].push(node))
            }),
            r ==> level_sum(final(self).dag.levels@, final(self).dag.spec_len() as int)
                > level_sum(old(self).dag.levels@, old(self).dag.spec_len() as int),
    {
        let ghost n = old(self).dag.spec_len() as int;
        let backs_len = self.dag.predecessors(node).len();
        let fwds_len = self.dag.successors(node).len();
        // Do not sink if that would lengthen more edges than it shortens,
        // or if there are no edges at all.
        if backs_len > fwds_len || (backs_len == 0 && fwds_len == 0) {
            return false;
        }
        let curr_rank = self.dag.level(node);
        let mut highest_next = self.dag.len();
        let mut t: usize = 0;
        while t < fwds_len
            invariant
                self.dag == old(self).dag,
                self.dag.wf(),
                node.idx < self.dag.spec_len(),
                fwds_len == self.dag.succ_of(node.idx as int).len(),
                t <= fwds_len,
                highest_next as int == min_succ_from(*self.dag, node.idx as int, t as int),
                t > 0 ==> highest_next <= self.dag.spec_level(
                    (self.dag.succ_of(node.idx as int)[0]).idx as int,
                ),
                t == 0 ==> highest_next == self.dag.spec_len(),
            decreases fwds_len - t,
        {
            let elem = self.dag.successors(node)[t];
            proof {
                assert((self.dag.succ_of(node.idx as int)[t as int]).idx < self.dag.spec_len());
            }
            let next_rank = self.dag.level(elem);
            if next_rank < highest_next {
                highest_next = next_rank;
            }
            t += 1;
        }
        // We found an opportunity to sink a node.
        proof {
            assert(curr_rank < self.dag.rows().len());
        }
        if highest_next > curr_rank && highest_next - curr_rank > 1 {
            proof {
                let s0 = (self.dag.succ_of(node.idx as int)[0]).idx as int;
                assert(highest_next <= self.dag.spec_level(s0));
                assert(self.dag.spec_level(s0) < self.dag.rows().len());
                assert(sink_cond(*old(self).dag, node.idx as int));
            }
            let ghost pre = *self.dag;
            self.dag.update_node_rank_level(node, highest_next - 1, None);
            proof {
                let this = *self.dag;
                let lv = (highest_next - 1) as usize;
                assert(this.levels@ == pre.levels@.update(node.idx as int, lv));
                lemma_level_sum_update(pre.levels@, node.idx as int, lv, n);
                let curr = pre.spec_level(node.idx as int);
                let shrunk = pre.rows().update(
                    curr,
                    pre.rows()[curr].remove(
                        crate::dag::first_index_of(pre.rows()[curr], node),
                    ),
                );
                assert(shrunk.len() == pre.rows().len());
                assert(crate::dag::grow_rows(shrunk, lv + 1).len() == shrunk.len());
                assert(crate::dag::grow_rows(shrunk, lv + 1) =~= shrunk);
                assert(this.rows() == shrunk.update(lv as int, shrunk[lv as int].push(node)));
                assert(this.rows().len() == pre.rows().len());
            }
            return true;
        }
        proof {
            assert(!sink_cond(*old(self).dag, node.idx as int));
        }
        false
    }

    /// Sink nodes until a full sweep over the graph moves nothing: at exit
    /// no node satisfies the sink condition any more.
    pub fn optimize(&mut self)
        requires
            old(self).dag.wf(),
            old(self).dag.spec_acyclic(),
        ensures
            final(self).dag.wf(),
            final(self).dag.nodes == old(self).dag.nodes,
            final(self).dag.spec_len() == old(self).dag.spec_len(),
            final(self).dag.rows().len() == old(self).dag.rows().len(),
            forall|v: int|
                0 <= v < final(self).dag.spec_len() ==> !sink_cond(*final(self).dag, v),
    {
        self.dag.verify();
        let mut run = true;
        while run
            invariant
                self.dag.wf(),
                self.dag.nodes == old(self).dag.nodes,
                self.dag.spec_len() == old(self).dag.spec_len(),
                self.dag.rows().len() == old(self).dag.rows().len(),
                !run ==> forall|v: int|
                    0 <= v < self.dag.spec_len() ==> !sink_cond(*self.dag, v),
            decreases sink_measure(*self.dag), (if run {
                1int
            } else {
                0int
            }),
        {
            let ghost sweep0 = *self.dag;
            proof {
                assert forall|v: int|
                    0 <= v < self.dag.levels@.len() implies (#[trigger] self.dag.levels@[v])
                    < self.dag.rows().len() as int by {
                    assert(0 <= self.dag.spec_level(v) < self.dag.rows().len());
                }
                lemma_level_sum_bound(
                    self.dag.levels@,
                    self.dag.spec_len() as int,
                    self.dag.rows().len() as int,
                );
                assert((self.dag.spec_len() as int) * (self.dag.rows().len() as int) >= (
                self.dag.spec_len() as int) * (self.dag.rows().len() as int));
                assert(sink_measure(*self.dag) >= 0);
            }
            let mut c: usize = 0;
            let n = self.dag.len();
            let mut i: usize = 0;
            while i < n
                invariant
                    self.dag.wf(),
                    self.dag.nodes == sweep0.nodes,
                    self.dag.spec_len() == sweep0.spec_len(),
                    self.dag.rows().len() == sweep0.rows().len(),
                    n == self.dag.spec_len(),
                    i <= n,
                    c <= i,
                    c == 0 ==> *self.dag == sweep0,
                    c == 0 ==> forall|v: int| 0 <= v < i ==> !sink_cond(sweep0, v),
                    c > 0 ==> level_sum(self.dag.levels@, n as int) > level_sum(
                        sweep0.levels@,
                        n as int,
                    ),
                decreases n - i,
            {
                if self.try_to_sink_node(NodeHandle::new(i)) {
                    c += 1;
                }
                i += 1;
            }
            if c == 0 {
                run = false;
                proof {
                    assert forall|v: int|
                        0 <= v < self.dag.spec_len() implies !sink_cond(*self.dag, v) by {
                        assert(!sink_cond(sweep0, v));
                    }
                }
            }
            proof {
                assert forall|v: int|
                    0 <= v < self.dag.levels@.len() implies (#[trigger] self.dag.levels@[v])
                    < self.dag.rows().len() as int by {
                    assert(0 <= self.dag.spec_level(v) < self.dag.rows().len());
                }
                lemma_level_sum_bound(
                    self.dag.levels@,
                    self.dag.spec_len() as int,
                    self.dag.rows().len() as int,
                );
                assert(sink_measure(*self.dag) >= 0);
            }
        }
    }
}

} // verus!
