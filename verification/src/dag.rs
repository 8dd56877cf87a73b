//! The ranked-DAG data structure: nodes with successor and predecessor
//! lists, a level (rank) for every node, and for every level an ordered row
//! of the nodes on it.
//!
//! The well-formedness predicate [`DAG::wf`] carries two laws of the
//! structure: edge symmetry (`b` is in `successors(a)` exactly as often as
//! `a` is in `predecessors(b)`) and rank coverage (the rows, taken together
//! as a multiset, hold every node exactly once).

use vstd::prelude::*;
use vstd::multiset::Multiset;
use vstd::seq_lib::group_to_multiset_ensures;

verus! {

broadcast use {
    group_to_multiset_ensures,
    vstd::multiset::group_multiset_axioms,
    vstd::multiset::group_multiset_properties,
    vstd::std_specs::vec::axiom_spec_len,
};

/// A stable index of a node in the [`DAG`].
#[derive(Copy, Clone, Default, PartialEq, Eq, Structural, PartialOrd, Ord, Hash, Debug)]
pub struct NodeHandle {
    pub idx: usize,
}

/// The handle of the node stored at index `i`.
pub open spec fn nh(i: int) -> NodeHandle {
    NodeHandle { idx: i as usize }
}

impl NodeHandle {
    pub fn new(x: usize) -> (r: Self)
        ensures
            r == nh(x as int),
    {
        NodeHandle { idx: x }
    }

    pub fn get_index(&self) -> (r: usize)
        ensures
            r == self.idx,
    {
        self.idx
    }
}

/// The adjacency lists of one node.
#[derive(Debug)]
pub struct Node {
    pub successors: Vec<NodeHandle>,
    pub predecessors: Vec<NodeHandle>,
}

impl Node {
    pub fn new() -> (r: Self)
        ensures
            r.successors@ =~= Seq::<NodeHandle>::empty(),
            r.predecessors@ =~= Seq::<NodeHandle>::empty(),
    {
        Node { successors: Vec::new(), predecessors: Vec::new() }
    }
}

/// The ranked-DAG data structure.
#[derive(Debug)]
pub struct DAG {
    /// The nodes, in insertion order. A [`NodeHandle`] indexes this vector.
    pub nodes: Vec<Node>,
    /// For every level, the ordered row of nodes on that level.
    pub ranks: Vec<Vec<NodeHandle>>,
    /// For every node, the level it sits on.
    pub levels: Vec<usize>,
    /// Whether expensive self-checks are requested by the caller.
    pub validate: bool,
}

pub type RankType = Vec<Vec<NodeHandle>>;

/// The multiset of all handles that the given rows hold, rows taken in order.
pub open spec fn rows_ms(rows: Seq<Seq<NodeHandle>>) -> Multiset<NodeHandle>
    decreases rows.len(),
{
    if rows.len() == 0 {
        Multiset::empty()
    } else {
        rows_ms(rows.drop_last()).add(rows.last().to_multiset())
    }
}

/// The multiset holding the handle of each of the first `n` nodes once.
pub open spec fn all_handles(n: nat) -> Multiset<NodeHandle> {
    Seq::new(n, |i: int| nh(i)).to_multiset()
}

impl DAG {
    /// The number of nodes.
    pub open spec fn spec_len(&self) -> nat {
        self.nodes@.len()
    }

    /// The successor list of node `a`.
    pub open spec fn succ_of(&self, a: int) -> Seq<NodeHandle> {
        self.nodes@[a].successors@
    }

    /// The predecessor list of node `a`.
    pub open spec fn pred_of(&self, a: int) -> Seq<NodeHandle> {
        self.nodes@[a].predecessors@
    }

    /// The level of node `a`.
    pub open spec fn spec_level(&self, a: int) -> int {
        self.levels@[a] as int
    }

    /// The rows, one ordered sequence of handles per level.
    pub open spec fn rows(&self) -> Seq<Seq<NodeHandle>> {
        Seq::new(self.ranks@.len(), |i: int| self.ranks@[i]@)
    }

    /// Every handle stored in an adjacency list points at a node.
    pub open spec fn edges_valid(&self) -> bool {
        forall|a: int, j: int|
            0 <= a < self.spec_len() && 0 <= j < self.succ_of(a).len()
                ==> (#[trigger] self.succ_of(a)[j]).idx < self.spec_len()
    }

    /// As `edges_valid`, for the predecessor lists.
    pub open spec fn preds_valid(&self) -> bool {
        forall|a: int, j: int|
            0 <= a < self.spec_len() && 0 <= j < self.pred_of(a).len()
                ==> (#[trigger] self.pred_of(a)[j]).idx < self.spec_len()
    }

    /// The multiplicity of `b` in the successor list of `a`.
    pub open spec fn succ_count(&self, a: usize, b: usize) -> nat {
        self.succ_of(a as int).to_multiset().count(NodeHandle { idx: b })
    }

    /// The multiplicity of `a` in the predecessor list of `b`.
    pub open spec fn pred_count(&self, a: usize, b: usize) -> nat {
        self.pred_of(b as int).to_multiset().count(NodeHandle { idx: a })
    }

    /// Edge symmetry: `b` appears in `successors(a)` exactly as often as `a`
    /// appears in `predecessors(b)`.
    pub open spec fn symmetric(&self) -> bool {
        forall|a: usize, b: usize|
            a < self.spec_len() && b < self.spec_len() ==> #[trigger] self.succ_count(a, b)
                == self.pred_count(a, b)
    }

    /// Rank coverage: the rows together hold every node exactly once, and
    /// every node is found on the row of its own level.
    pub open spec fn rank_coverage(&self) -> bool {
        &&& rows_ms(self.rows()) =~= all_handles(self.spec_len())
        &&& forall|i: int|
            0 <= i < self.spec_len()
                ==> 0 <= #[trigger] self.spec_level(i) < self.rows().len()
                    && self.rows()[self.spec_level(i)].contains(nh(i))
        &&& self.levels@.len() == self.spec_len()
    }

    /// Well-formedness of the structure.
    pub open spec fn wf(&self) -> bool {
        &&& self.spec_len() <= usize::MAX
        &&& self.levels@.len() == self.spec_len()
        &&& self.edges_valid()
        &&& self.preds_valid()
        &&& self.symmetric()
        &&& self.rank_coverage()
    }

    pub fn new() -> (r: Self)
        ensures
            r.wf(),
            r.spec_len() == 0,
            r.rows().len() == 0,
    {
        let r = DAG { nodes: Vec::new(), ranks: Vec::new(), levels: Vec::new(), validate: true };
        proof {
            assert(r.rows() =~= Seq::<Seq<NodeHandle>>::empty());
            assert(Seq::new(0, |i: int| nh(i)) =~= Seq::<NodeHandle>::empty());
            assert(rows_ms(r.rows()) =~= all_handles(0));
        }
        r
    }

    pub fn set_validate(&mut self, validate: bool)
        ensures
            final(self).nodes == old(self).nodes,
            final(self).ranks == old(self).ranks,
            final(self).levels == old(self).levels,
    {
        self.validate = validate;
    }

    pub fn clear(&mut self)
        ensures
            final(self).wf(),
            final(self).spec_len() == 0,
            final(self).rows().len() == 0,
    {
        self.nodes.clear();
        self.ranks.clear();
        self.levels.clear();
        proof {
            assert(final(self).rows() =~= Seq::<Seq<NodeHandle>>::empty());
            assert(Seq::new(0, |i: int| nh(i)) =~= Seq::<NodeHandle>::empty());
            assert(rows_ms(final(self).rows()) =~= all_handles(0));
        }
    }

    pub fn len(&self) -> (r: usize)
        ensures
            r == self.spec_len(),
    {
        self.nodes.len()
    }

    pub fn is_empty(&self) -> (r: bool)
        ensures
            r == (self.spec_len() == 0),
    {
        self.nodes.is_empty()
    }

    pub fn successors(&self, from: NodeHandle) -> (r: &Vec<NodeHandle>)
        requires
            from.idx < self.spec_len(),
        ensures
            r@ == self.succ_of(from.idx as int),
    {
        &self.nodes[from.idx].successors
    }

    pub fn predecessors(&self, from: NodeHandle) -> (r: &Vec<NodeHandle>)
        requires
            from.idx < self.spec_len(),
        ensures
            r@ == self.pred_of(from.idx as int),
    {
        &self.nodes[from.idx].predecessors
    }

    /// The single predecessor of `from`, when it has exactly one.
    pub fn single_pred(&self, from: NodeHandle) -> (r: Option<NodeHandle>)
        requires
            from.idx < self.spec_len(),
        ensures
            self.pred_of(from.idx as int).len() == 1 ==> r == Some(self.pred_of(from.idx as int)[0]),
            self.pred_of(from.idx as int).len() != 1 ==> r is None,
    {
        if self.nodes[from.idx].predecessors.len() == 1 {
            return Some(self.nodes[from.idx].predecessors[0]);
        }
        None
    }

    /// The single successor of `from`, when it has exactly one.
    pub fn single_succ(&self, from: NodeHandle) -> (r: Option<NodeHandle>)
        requires
            from.idx < self.spec_len(),
        ensures
            self.succ_of(from.idx as int).len() == 1 ==> r == Some(self.succ_of(from.idx as int)[0]),
            self.succ_of(from.idx as int).len() != 1 ==> r is None,
    {
        if self.nodes[from.idx].successors.len() == 1 {
            return Some(self.nodes[from.idx].successors[0]);
        }
        None
    }
}


impl DAG {
    /// The number of levels (rows) in the rank structure.
    pub fn num_levels(&self) -> (r: usize)
        ensures
            r == self.rows().len(),
    {
        self.ranks.len()
    }

    /// A read-only view of the row at `level`.
    pub fn row(&self, level: usize) -> (r: &Vec<NodeHandle>)
        requires
            level < self.rows().len(),
        ensures
            r@ == self.rows()[level as int],
    {
        &self.ranks[level]
    }

    /// A mutable reference to the row at `level`. The caller is responsible
    /// for keeping the row a permutation of what it was, or for restoring
    /// rank coverage in some other way.
    pub fn row_mut(&mut self, level: usize) -> (r: &mut Vec<NodeHandle>)
        requires
            level < old(self).rows().len(),
        ensures
            *r == old(self).ranks@[level as int],
            final(self).ranks@ == old(self).ranks@.update(level as int, *final(r)),
            final(self).nodes == old(self).nodes,
            final(self).levels == old(self).levels,
    {
        &mut self.ranks[level]
    }

    /// A read-only view of the whole rank structure.
    pub fn ranks(&self) -> (r: &RankType)
        ensures
            r == self.ranks,
    {
        &self.ranks
    }

    /// A mutable reference to the whole rank structure. The caller is
    /// responsible for restoring rank coverage.
    pub fn ranks_mut(&mut self) -> (r: &mut RankType)
        ensures
            *r == old(self).ranks,
            final(self).ranks == *final(r),
            final(self).nodes == old(self).nodes,
            final(self).levels == old(self).levels,
    {
        &mut self.ranks
    }

    /// The level of `node` in the rank structure.
    pub fn level(&self, node: NodeHandle) -> (r: usize)
        requires
            node.idx < self.spec_len(),
            self.levels@.len() == self.spec_len(),
        ensures
            r == self.spec_level(node.idx as int),
    {
        self.levels[node.get_index()]
    }

    /// True when `elem` is the first node of the row at `level`.
    pub fn is_first_in_row(&self, elem: NodeHandle, level: usize) -> (r: bool)
        ensures
            r == (level < self.rows().len() && self.rows()[level as int].len() > 0
                && self.rows()[level as int][0] == elem),
    {
        if level >= self.ranks.len() || self.ranks[level].is_empty() {
            return false;
        }
        self.ranks[level][0] == elem
    }

    /// True when `elem` is the last node of the row at `level`.
    pub fn is_last_in_row(&self, elem: NodeHandle, level: usize) -> (r: bool)
        ensures
            r == (level < self.rows().len() && self.rows()[level as int].len() > 0
                && self.rows()[level as int].last() == elem),
    {
        if level >= self.ranks.len() || self.ranks[level].is_empty() {
            return false;
        }
        let last_idx = self.ranks[level].len() - 1;
        self.ranks[level][last_idx] == elem
    }

    /// Add the edge `from -> to`, keeping both adjacency sides in step.
    pub fn add_edge(&mut self, from: NodeHandle, to: NodeHandle)
        requires
            old(self).wf(),
            from.idx < old(self).spec_len(),
            to.idx < old(self).spec_len(),
        ensures
            final(self).wf(),
            final(self).spec_len() == old(self).spec_len(),
            final(self).ranks == old(self).ranks,
            final(self).levels == old(self).levels,
            final(self).succ_of(from.idx as int) == old(self).succ_of(from.idx as int).push(to),
            final(self).pred_of(to.idx as int) == old(self).pred_of(to.idx as int).push(from),
            forall|a: int|
                0 <= a < old(self).spec_len() && a != from.idx ==> final(self).succ_of(a)
                    == old(self).succ_of(a),
            forall|a: int|
                0 <= a < old(self).spec_len() && a != to.idx ==> final(self).pred_of(a)
                    == old(self).pred_of(a),
    {
        self.nodes[from.idx].successors.push(to);
        self.nodes[to.idx].predecessors.push(from);
        proof {
            assert forall|a: usize, b: usize|
                a < final(self).spec_len() && b < final(self).spec_len()
                    implies #[trigger] final(self).succ_count(a, b)
                    == final(self).pred_count(a, b) by {
                assert(old(self).succ_count(a, b) == old(self).pred_count(a, b));
                if a == from.idx {
                    assert(final(self).succ_of(a as int).to_multiset()
                        =~= old(self).succ_of(a as int).to_multiset().insert(to));
                }
                if b == to.idx {
                    assert(final(self).pred_of(b as int).to_multiset()
                        =~= old(self).pred_of(b as int).to_multiset().insert(from));
                }
                assert(NodeHandle { idx: b } == to <==> b == to.idx);
                assert(NodeHandle { idx: a } == from <==> a == from.idx);
            }
            assert(final(self).rows() =~= old(self).rows());
            assert forall|a: int, j: int|
                0 <= a < final(self).spec_len() && 0 <= j < final(self).succ_of(a).len()
                    implies (#[trigger] final(self).succ_of(a)[j]).idx < final(self).spec_len() by {
                if a == from.idx && j == old(self).succ_of(a).len() {
                    assert(final(self).succ_of(a)[j] == to);
                } else {
                    assert(final(self).succ_of(a)[j] == old(self).succ_of(a)[j]);
                }
            }
            assert forall|a: int, j: int|
                0 <= a < final(self).spec_len() && 0 <= j < final(self).pred_of(a).len()
                    implies (#[trigger] final(self).pred_of(a)[j]).idx < final(self).spec_len() by {
                if a == to.idx && j == old(self).pred_of(a).len() {
                    assert(final(self).pred_of(a)[j] == from);
                } else {
                    assert(final(self).pred_of(a)[j] == old(self).pred_of(a)[j]);
                }
            }
            assert(final(self).rank_coverage()) by {
                assert(rows_ms(final(self).rows()) =~= rows_ms(old(self).rows()));
                assert forall|i: int| 0 <= i < final(self).spec_len()
                    implies 0 <= #[trigger] final(self).spec_level(i) < final(self).rows().len()
                        && final(self).rows()[final(self).spec_level(i)].contains(nh(i)) by {
                    assert(old(self).rows()[old(self).spec_level(i)].contains(nh(i)));
                }
            }
        }
    }
}


/// The row at index `i`, or the empty row when `i` is past the end.
pub open spec fn row_or_empty(rows: Seq<Seq<NodeHandle>>, i: int) -> Seq<NodeHandle> {
    if 0 <= i < rows.len() {
        rows[i]
    } else {
        Seq::empty()
    }
}

/// The first position of `x` in `s`, or `-1` when `s` does not hold `x`.
pub open spec fn first_index_of(s: Seq<NodeHandle>, x: NodeHandle) -> int
    decreases s.len(),
{
    if s.len() == 0 {
        -1
    } else if s[0] == x {
        0
    } else if first_index_of(s.drop_first(), x) == -1 {
        -1
    } else {
        1 + first_index_of(s.drop_first(), x)
    }
}

pub proof fn lemma_first_index_of(s: Seq<NodeHandle>, x: NodeHandle)
    ensures
        s.contains(x) ==> 0 <= first_index_of(s, x) < s.len() && s[first_index_of(s, x)] == x
            && forall|j: int| 0 <= j < first_index_of(s, x) ==> s[j] != x,
        !s.contains(x) ==> first_index_of(s, x) == -1,
    decreases s.len(),
{
    if s.len() == 0 {
    } else if s[0] == x {
    } else {
        let d = s.drop_first();
        lemma_first_index_of(d, x);
        assert forall|k: int| 0 <= k < s.len() && s[k] == x implies d.contains(x) by {
            assert(d[k - 1] == x);
        }
        if s.contains(x) {
            assert(d.contains(x));
            assert(s[first_index_of(s, x)] == d[first_index_of(d, x)]);
            assert forall|j: int| 0 <= j < first_index_of(s, x) implies s[j] != x by {
                if j > 0 {
                    assert(s[j] == d[j - 1]);
                }
            }
        }
    }
}

/// Replacing one row changes the multiset of held handles by exactly the
/// difference between the new and the old row.
pub proof fn lemma_rows_ms_update(rows: Seq<Seq<NodeHandle>>, i: int, nr: Seq<NodeHandle>)
    requires
        0 <= i < rows.len(),
    ensures
        rows_ms(rows.update(i, nr)).add(rows[i].to_multiset()) =~= rows_ms(rows).add(
            nr.to_multiset(),
        ),
    decreases rows.len(),
{
    if i == rows.len() - 1 {
        assert(rows.update(i, nr).drop_last() =~= rows.drop_last());
        assert(rows.update(i, nr).last() == nr);
    } else {
        let sub = rows.drop_last();
        assert(rows.update(i, nr).drop_last() =~= sub.update(i, nr));
        assert(rows.update(i, nr).last() == rows.last());
        lemma_rows_ms_update(sub, i, nr);
        assert forall|x: NodeHandle|
            rows_ms(rows.update(i, nr)).add(rows[i].to_multiset()).count(x) == rows_ms(rows).add(
                nr.to_multiset(),
            ).count(x) by {
            assert(rows_ms(sub.update(i, nr)).add(rows[i].to_multiset()).count(x) == rows_ms(
                sub,
            ).add(nr.to_multiset()).count(x));
            assert(rows_ms(rows.update(i, nr)).count(x) == rows_ms(sub.update(i, nr)).count(x)
                + rows.last().to_multiset().count(x));
            assert(rows_ms(rows).count(x) == rows_ms(sub).count(x)
                + rows.last().to_multiset().count(x));
        }
    }
}

/// Appending a row adds exactly its contents to the held multiset.
pub proof fn lemma_rows_ms_push(rows: Seq<Seq<NodeHandle>>, nr: Seq<NodeHandle>)
    ensures
        rows_ms(rows.push(nr)) =~= rows_ms(rows).add(nr.to_multiset()),
{
    assert(rows.push(nr).drop_last() =~= rows);
    assert(rows.push(nr).last() == nr);
}

/// Appending an empty row leaves the held multiset unchanged.
pub proof fn lemma_rows_ms_push_empty(rows: Seq<Seq<NodeHandle>>)
    ensures
        rows_ms(rows.push(Seq::empty())) =~= rows_ms(rows),
{
    lemma_rows_ms_push(rows, Seq::empty());
    assert(Seq::<NodeHandle>::empty().to_multiset() =~= Multiset::empty());
}

pub proof fn lemma_all_handles_snoc(n: nat)
    requires
        n < usize::MAX,
    ensures
        all_handles(n + 1) =~= all_handles(n).insert(nh(n as int)),
{
    assert(Seq::new(n + 1, |i: int| nh(i)) =~= Seq::new(n, |i: int| nh(i)).push(nh(n as int)));
}

/// Each of the first `n` handles is held exactly once by `all_handles(n)`,
/// and nothing else is held at all.
pub proof fn lemma_all_handles_count(n: nat, h: NodeHandle)
    requires
        n <= usize::MAX,
    ensures
        all_handles(n).count(h) == if (h.idx as int) < n {
            1nat
        } else {
            0nat
        },
    decreases n,
{
    if n == 0 {
        assert(Seq::new(0, |i: int| nh(i)) =~= Seq::<NodeHandle>::empty());
        assert(all_handles(0).len() == 0);
        assert(all_handles(0).count(h) <= all_handles(0).len()) by {
            vstd::multiset::axiom_count_le_len(all_handles(0), h);
        }
    } else {
        lemma_all_handles_count((n - 1) as nat, h);
        lemma_all_handles_snoc((n - 1) as nat);
        assert(nh(n - 1) == h <==> h.idx == n - 1);
    }
}

/// Inserting into a sequence inserts into its multiset.
pub proof fn lemma_insert_to_multiset(s: Seq<NodeHandle>, i: int, x: NodeHandle)
    requires
        0 <= i <= s.len(),
    ensures
        s.insert(i, x).to_multiset() =~= s.to_multiset().insert(x),
    decreases s.len(),
{
    if i == s.len() {
        assert(s.insert(i, x) =~= s.push(x));
    } else {
        let q = s.insert(i, x);
        assert(q.drop_last() =~= s.drop_last().insert(i, x));
        assert(q.last() == s.last());
        lemma_insert_to_multiset(s.drop_last(), i, x);
        assert(q =~= q.drop_last().push(q.last()));
        assert(s =~= s.drop_last().push(s.last()));
    }
}

/// `rows` padded with empty rows so that at least `n` rows exist.
pub open spec fn grow_rows(rows: Seq<Seq<NodeHandle>>, n: int) -> Seq<Seq<NodeHandle>> {
    Seq::new(if rows.len() >= n { rows.len() } else { n as nat }, |i: int| row_or_empty(rows, i))
}

/// Finds the first position of `x` in `v`.
fn find_first(v: &Vec<NodeHandle>, x: NodeHandle) -> (r: Option<usize>)
    ensures
        v@.contains(x) ==> r == Some(first_index_of(v@, x) as usize),
        !v@.contains(x) ==> r is None,
{
    proof {
        lemma_first_index_of(v@, x);
    }
    let n = v.len();
    let mut i: usize = 0;
    while i < n
        invariant
            i <= n,
            n == v@.len(),
            forall|j: int| 0 <= j < i ==> v@[j] != x,
        decreases n - i,
    {
        if v[i] == x {
            proof {
                assert(v@.contains(x));
                lemma_first_index_of(v@, x);
                let k = first_index_of(v@, x);
                if k < i {
                    assert(v@[k] != x);
                }
                if k > i {
                    assert(v@[i as int] != x);
                }
                assert(k == i);
            }
            return Some(i);
        }
        i += 1;
    }
    proof {
        if v@.contains(x) {
            let k = first_index_of(v@, x);
            assert(v@[k] != x);
        }
    }
    None
}

impl DAG {
    /// Remove one edge `from -> to`: the first occurrence on each side.
    /// Returns whether an edge was removed.
    pub fn remove_edge(&mut self, from: NodeHandle, to: NodeHandle) -> (r: bool)
        requires
            old(self).wf(),
            from.idx < old(self).spec_len(),
            to.idx < old(self).spec_len(),
        ensures
            final(self).wf(),
            final(self).spec_len() == old(self).spec_len(),
            final(self).ranks == old(self).ranks,
            final(self).levels == old(self).levels,
            r == old(self).succ_of(from.idx as int).contains(to),
            r ==> final(self).succ_of(from.idx as int) == old(self).succ_of(
                from.idx as int,
            ).remove(first_index_of(old(self).succ_of(from.idx as int), to)),
            r ==> final(self).pred_of(to.idx as int) == old(self).pred_of(to.idx as int).remove(
                first_index_of(old(self).pred_of(to.idx as int), from),
            ),
            !r ==> final(self).nodes == old(self).nodes,
            forall|a: int|
                0 <= a < old(self).spec_len() && a != from.idx ==> final(self).succ_of(a)
                    == old(self).succ_of(a),
            forall|a: int|
                0 <= a < old(self).spec_len() && a != to.idx ==> final(self).pred_of(a)
                    == old(self).pred_of(a),
    {
        proof {
            lemma_first_index_of(old(self).succ_of(from.idx as int), to);
            lemma_first_index_of(old(self).pred_of(to.idx as int), from);
            // Symmetry means both sides hold the edge, or neither does.
            assert(old(self).succ_count(from.idx, to.idx) == old(self).pred_count(
                from.idx,
                to.idx,
            ));
            assert(NodeHandle { idx: to.idx } == to);
            assert(NodeHandle { idx: from.idx } == from);
        }
        let mut removed_succ = false;
        let ghost s_old = old(self).succ_of(from.idx as int);
        let pos_s = find_first(&self.nodes[from.idx].successors, to);
        if let Some(pos) = pos_s {
            proof {
                assert(s_old.contains(to));
                assert(s_old.len() == old(self).nodes@[from.idx as int].successors.len());
                assert(0 <= first_index_of(s_old, to) < s_old.len());
                assert(pos == first_index_of(s_old, to) as usize);
                assert(pos as int == first_index_of(s_old, to));
            }
            self.nodes[from.idx].successors.remove(pos);
            removed_succ = true;
            proof {
                assert(self.succ_of(from.idx as int) == s_old.remove(pos as int));
                assert(self.succ_of(from.idx as int) == s_old.remove(first_index_of(s_old, to)));
            }
        }
        let mut removed_pred = false;
        let ghost p_old = old(self).pred_of(to.idx as int);
        let pos_p = find_first(&self.nodes[to.idx].predecessors, from);
        if let Some(pos) = pos_p {
            proof {
                assert(self.pred_of(to.idx as int) == p_old);
                assert(p_old.contains(from));
                assert(p_old.len() == old(self).nodes@[to.idx as int].predecessors.len());
                assert(0 <= first_index_of(p_old, from) < p_old.len());
                assert(pos as int == first_index_of(p_old, from));
            }
            self.nodes[to.idx].predecessors.remove(pos);
            removed_pred = true;
            proof {
                assert(self.pred_of(to.idx as int) == p_old.remove(first_index_of(p_old, from)));
            }
        }
        // The pred-succ lists always stay in step; symmetry shows the check
        // of the two flags against each other cannot fail.
        assert(removed_pred == removed_succ);
        proof {
            let this = *final(self);
            assert forall|a: usize, b: usize|
                a < this.spec_len() && b < this.spec_len() implies #[trigger] this.succ_count(a, b)
                == this.pred_count(a, b) by {
                assert(old(self).succ_count(a, b) == old(self).pred_count(a, b));
                if removed_succ {
                    if a == from.idx {
                        assert(this.succ_of(a as int).to_multiset() =~= old(self).succ_of(
                            a as int,
                        ).to_multiset().remove(to));
                    }
                    if b == to.idx {
                        assert(this.pred_of(b as int).to_multiset() =~= old(self).pred_of(
                            b as int,
                        ).to_multiset().remove(from));
                    }
                    assert(NodeHandle { idx: b } == to <==> b == to.idx);
                    assert(NodeHandle { idx: a } == from <==> a == from.idx);
                }
            }
            assert forall|a: int, j: int|
                0 <= a < this.spec_len() && 0 <= j < this.succ_of(a).len() implies (
            #[trigger] this.succ_of(a)[j]).idx < this.spec_len() by {
                if removed_succ && a == from.idx {
                    let k = first_index_of(old(self).succ_of(a), to);
                    if j < k {
                        assert(this.succ_of(a)[j] == old(self).succ_of(a)[j]);
                    } else {
                        assert(this.succ_of(a)[j] == old(self).succ_of(a)[j + 1]);
                    }
                } else {
                    assert(this.succ_of(a) == old(self).succ_of(a));
                }
            }
            assert forall|a: int, j: int|
                0 <= a < this.spec_len() && 0 <= j < this.pred_of(a).len() implies (
            #[trigger] this.pred_of(a)[j]).idx < this.spec_len() by {
                if removed_pred && a == to.idx {
                    let k = first_index_of(old(self).pred_of(a), from);
                    if j < k {
                        assert(this.pred_of(a)[j] == old(self).pred_of(a)[j]);
                    } else {
                        assert(this.pred_of(a)[j] == old(self).pred_of(a)[j + 1]);
                    }
                } else {
                    assert(this.pred_of(a) == old(self).pred_of(a));
                }
            }
            assert(this.rows() =~= old(self).rows());
            assert forall|i: int| 0 <= i < this.spec_len()
                implies 0 <= #[trigger] this.spec_level(i) < this.rows().len()
                    && this.rows()[this.spec_level(i)].contains(nh(i)) by {
                assert(old(self).rows()[old(self).spec_level(i)].contains(nh(i)));
            }
        }
        removed_pred
    }

    /// Place `elem` on the row at `level`, creating rows as needed, either
    /// at the back of the row or (with `prepend`) at its front. The node
    /// must not already sit in any row.
    fn add_element_to_rank(&mut self, elem: NodeHandle, level: usize, prepend: bool)
        requires
            elem.idx < old(self).levels@.len(),
        ensures
            final(self).nodes == old(self).nodes,
            final(self).validate == old(self).validate,
            final(self).levels@ == old(self).levels@.update(elem.idx as int, level),
            final(self).rows().len() == grow_rows(old(self).rows(), level + 1).len(),
            forall|i: int|
                0 <= i < final(self).rows().len() && i != level ==> final(self).rows()[i]
                    == row_or_empty(old(self).rows(), i),
            !prepend ==> final(self).rows()[level as int] == row_or_empty(
                old(self).rows(),
                level as int,
            ).push(elem),
            prepend ==> final(self).rows()[level as int] == row_or_empty(
                old(self).rows(),
                level as int,
            ).insert(0, elem),
            rows_ms(final(self).rows()) =~= rows_ms(old(self).rows()).insert(elem),
    {
        while self.ranks.len() <= level
            invariant
                self.nodes == old(self).nodes,
                self.levels == old(self).levels,
                self.validate == old(self).validate,
                self.rows().len() >= old(self).rows().len(),
                self.rows().len() <= level + 1 || self.rows().len() == old(self).rows().len(),
                forall|i: int|
                    0 <= i < self.rows().len() ==> #[trigger] self.rows()[i] == row_or_empty(
                        old(self).rows(),
                        i,
                    ),
                rows_ms(self.rows()) =~= rows_ms(old(self).rows()),
            decreases level + 1 - self.ranks@.len(),
        {
            let ghost prev = self.rows();
            self.ranks.push(Vec::new());
            proof {
                assert(self.rows() =~= prev.push(Seq::empty()));
                lemma_rows_ms_push_empty(prev);
            }
        }
        let ghost mid = self.rows();
        if prepend {
            self.ranks[level].insert(0, elem);
            proof {
                assert(self.rows() =~= mid.update(level as int, mid[level as int].insert(0, elem)));
                lemma_insert_to_multiset(mid[level as int], 0, elem);
                lemma_rows_ms_update(mid, level as int, mid[level as int].insert(0, elem));
            }
        } else {
            self.ranks[level].push(elem);
            proof {
                assert(self.rows() =~= mid.update(level as int, mid[level as int].push(elem)));
                lemma_rows_ms_update(mid, level as int, mid[level as int].push(elem));
            }
        }
        self.levels[elem.get_index()] = level;
        proof {
            let this = *final(self);
            assert forall|x: NodeHandle|
                rows_ms(this.rows()).count(x) == rows_ms(old(self).rows()).insert(elem).count(
                    x,
                ) by {
                assert(rows_ms(this.rows()).add(mid[level as int].to_multiset()).count(x)
                    == rows_ms(mid).add(mid[level as int].to_multiset().insert(elem)).count(x));
                assert(rows_ms(mid).count(x) == rows_ms(old(self).rows()).count(x));
            }
            assert(rows_ms(this.rows()) =~= rows_ms(old(self).rows()).insert(elem));
        }
    }

    /// Create a fresh node. It starts with no edges, on level zero.
    pub fn new_node(&mut self) -> (r: NodeHandle)
        requires
            old(self).wf(),
            old(self).spec_len() < usize::MAX,
        ensures
            final(self).wf(),
            r == nh(old(self).spec_len() as int),
            final(self).spec_len() == old(self).spec_len() + 1,
            final(self).succ_of(r.idx as int) =~= Seq::<NodeHandle>::empty(),
            final(self).pred_of(r.idx as int) =~= Seq::<NodeHandle>::empty(),
            forall|a: int|
                0 <= a < old(self).spec_len() ==> final(self).succ_of(a) == old(self).succ_of(a)
                    && final(self).pred_of(a) == old(self).pred_of(a),
            final(self).levels@ == old(self).levels@.push(0),
            final(self).spec_level(r.idx as int) == 0,
            final(self).rows().len() == grow_rows(old(self).rows(), 1).len(),
            final(self).rows()[0] == row_or_empty(old(self).rows(), 0).push(r),
            forall|i: int|
                0 < i < final(self).rows().len() ==> final(self).rows()[i] == row_or_empty(
                    old(self).rows(),
                    i,
                ),
    {
        self.nodes.push(Node::new());
        self.levels.push(0);
        let node = NodeHandle::new(self.nodes.len() - 1);
        self.add_element_to_rank(node, 0, false);
        proof {
            let this = *final(self);
            let n0 = old(self).spec_len();
            assert(this.levels@ == old(self).levels@.push(0).update(node.idx as int, 0nat as usize));
            assert(this.levels@ =~= old(self).levels@.push(0));
            assert forall|a: usize, b: usize|
                a < this.spec_len() && b < this.spec_len() implies #[trigger] this.succ_count(a, b)
                == this.pred_count(a, b) by {
                if a < n0 && b < n0 {
                    assert(old(self).succ_count(a, b) == old(self).pred_count(a, b));
                    assert(this.succ_of(a as int) == old(self).succ_of(a as int));
                    assert(this.pred_of(b as int) == old(self).pred_of(b as int));
                } else {
                    if a as int == n0 {
                        assert(this.succ_of(a as int).to_multiset().len() == 0);
                    } else {
                        assert(this.succ_of(a as int) == old(self).succ_of(a as int));
                        assert(!old(self).succ_of(a as int).contains(NodeHandle { idx: b })) by {
                            assert forall|j: int|
                                0 <= j < old(self).succ_of(a as int).len() implies old(
                                self,
                            ).succ_of(a as int)[j] != NodeHandle { idx: b } by {
                                assert((old(self).succ_of(a as int)[j]).idx < n0);
                            }
                        }
                    }
                    if b as int == n0 {
                        assert(this.pred_of(b as int).to_multiset().len() == 0);
                    } else {
                        assert(this.pred_of(b as int) == old(self).pred_of(b as int));
                        assert(!old(self).pred_of(b as int).contains(NodeHandle { idx: a })) by {
                            assert forall|j: int|
                                0 <= j < old(self).pred_of(b as int).len() implies old(
                                self,
                            ).pred_of(b as int)[j] != NodeHandle { idx: a } by {
                                assert((old(self).pred_of(b as int)[j]).idx < n0);
                            }
                        }
                    }
                }
            }
            assert(rows_ms(this.rows()) =~= all_handles(this.spec_len())) by {
                lemma_all_handles_snoc(n0);
                assert(rows_ms(this.rows()) =~= rows_ms(old(self).rows()).insert(node));
                assert(node == nh(n0 as int));
            }
            assert forall|a: int, j: int|
                0 <= a < this.spec_len() && 0 <= j < this.succ_of(a).len() implies (
            #[trigger] this.succ_of(a)[j]).idx < this.spec_len() by {
                if a < n0 {
                    assert(this.succ_of(a) == old(self).succ_of(a));
                    assert((old(self).succ_of(a)[j]).idx < n0);
                } else {
                    assert(this.succ_of(a).len() == 0);
                }
            }
            assert forall|a: int, j: int|
                0 <= a < this.spec_len() && 0 <= j < this.pred_of(a).len() implies (
            #[trigger] this.pred_of(a)[j]).idx < this.spec_len() by {
                if a < n0 {
                    assert(this.pred_of(a) == old(self).pred_of(a));
                    assert((old(self).pred_of(a)[j]).idx < n0);
                } else {
                    assert(this.pred_of(a).len() == 0);
                }
            }
            assert forall|i: int| 0 <= i < this.spec_len()
                implies 0 <= #[trigger] this.spec_level(i) < this.rows().len()
                    && this.rows()[this.spec_level(i)].contains(nh(i)) by {
                if i < n0 {
                    assert(old(self).rows()[old(self).spec_level(i)].contains(nh(i)));
                    assert(this.spec_level(i) == old(self).spec_level(i));
                    let l = this.spec_level(i);
                    let k = choose|k: int|
                        0 <= k < old(self).rows()[l].len() && old(self).rows()[l][k] == nh(i);
                    if l == 0 {
                        assert(this.rows()[0] == row_or_empty(old(self).rows(), 0).push(node));
                        assert(this.rows()[l][k] == nh(i));
                    } else {
                        assert(this.rows()[l] == row_or_empty(old(self).rows(), l));
                        assert(this.rows()[l][k] == nh(i));
                    }
                    assert(0 <= k < this.rows()[l].len());
                    assert(this.rows()[l].contains(nh(i)));
                } else {
                    assert(this.spec_level(i) == 0);
                    assert(this.rows()[0].last() == nh(i));
                    assert(this.rows()[0].contains(nh(i)));
                }
            }
        }
        node
    }

    /// Create `n` fresh nodes at once.
    pub fn new_nodes(&mut self, n: usize)
        requires
            old(self).wf(),
            old(self).spec_len() + n <= usize::MAX,
        ensures
            final(self).wf(),
            final(self).spec_len() == old(self).spec_len() + n,
            forall|a: int|
                0 <= a < old(self).spec_len() ==> final(self).succ_of(a) == old(self).succ_of(a)
                    && final(self).pred_of(a) == old(self).pred_of(a),
            forall|a: int|
                old(self).spec_len() <= a < final(self).spec_len() ==> final(self).succ_of(a).len()
                    == 0 && final(self).pred_of(a).len() == 0,
    {
        let mut i: usize = 0;
        while i < n
            invariant
                self.wf(),
                self.spec_len() == old(self).spec_len() + i,
                i <= n,
                old(self).spec_len() + n <= usize::MAX,
                forall|a: int|
                    0 <= a < old(self).spec_len() ==> self.succ_of(a) == old(self).succ_of(a)
                        && self.pred_of(a) == old(self).pred_of(a),
                forall|a: int|
                    old(self).spec_len() <= a < self.spec_len() ==> self.succ_of(a).len() == 0
                        && self.pred_of(a).len() == 0,
            decreases n - i,
        {
            let _ = self.new_node();
            i += 1;
        }
    }
}


/// Iterates over the handles of a graph, in insertion order.
#[derive(Debug)]
pub struct NodeIterator {
    pub curr: usize,
    pub last: usize,
}

impl NodeIterator {
    /// The next handle, or nothing when the iterator is exhausted.
    pub fn next(&mut self) -> (r: Option<NodeHandle>)
        ensures
            old(self).curr >= old(self).last ==> r is None && *final(self) == *old(self),
            old(self).curr < old(self).last ==> r == Some(nh(old(self).curr as int))
                && final(self).curr == old(self).curr + 1 && final(self).last == old(self).last,
    {
        if self.curr >= self.last {
            return None;
        }
        let item = Some(NodeHandle::new(self.curr));
        self.curr = self.curr + 1;
        item
    }
}

impl DAG {
    /// An iterator over all node handles.
    pub fn iter(&self) -> (r: NodeIterator)
        ensures
            r.curr == 0,
            r.last == self.spec_len(),
    {
        NodeIterator { curr: 0, last: self.nodes.len() }
    }

    /// Move `node` to the row at `new_level`: either appended at the end of
    /// that row, or inserted immediately before the marker node.
    pub fn update_node_rank_level(
        &mut self,
        node: NodeHandle,
        new_level: usize,
        insert_before: Option<NodeHandle>,
    )
        requires
            old(self).wf(),
            node.idx < old(self).spec_len(),
            insert_before matches Some(m) ==> m.idx < old(self).spec_len() && m != node && old(
                self,
            ).spec_level(m.idx as int) == new_level,
        ensures
            final(self).wf(),
            final(self).nodes == old(self).nodes,
            final(self).spec_len() == old(self).spec_len(),
            final(self).levels@ == old(self).levels@.update(node.idx as int, new_level),
            final(self).spec_level(node.idx as int) == new_level,
            ({
                let curr = old(self).spec_level(node.idx as int);
                let shrunk = old(self).rows().update(
                    curr,
                    old(self).rows()[curr].remove(
                        first_index_of(old(self).rows()[curr], node),
                    ),
                );
                let grown = grow_rows(shrunk, new_level + 1);
                match insert_before {
                    Some(marker) => final(self).rows() == grown.update(
                        new_level as int,
                        grown[new_level as int].insert(
                            first_index_of(grown[new_level as int], marker),
                            node,
                        ),
                    ),
                    None => final(self).rows() == grown.update(
                        new_level as int,
                        grown[new_level as int].push(node),
                    ),
                }
            }),
    {
        let curr_level = self.level(node);
        proof {
            assert(old(self).rows()[curr_level as int].contains(node)) by {
                assert(old(self).rows()[old(self).spec_level(node.idx as int)].contains(nh(
                    node.idx as int,
                )));
                assert(nh(node.idx as int) == node);
            }
            lemma_first_index_of(old(self).rows()[curr_level as int], node);
        }
        let ghost row0 = self.rows()[curr_level as int];
        proof {
            assert(self.ranks@[curr_level as int]@ == row0);
        }
        let pos = match find_first(&self.ranks[curr_level], node) {
            Some(p) => p,
            None => {
                proof {
                    assert(false);
                }
                0
            },
        };
        proof {
            assert(row0.len() == self.ranks@[curr_level as int].len());
            assert(0 <= first_index_of(row0, node) < row0.len());
            assert(pos as int == first_index_of(row0, node));
        }
        self.ranks[curr_level].remove(pos);
        let ghost shrunk = self.rows();
        proof {
            assert(shrunk =~= old(self).rows().update(
                curr_level as int,
                row0.remove(first_index_of(row0, node)),
            ));
        }
        // Make sure that the target row exists.
        while self.ranks.len() <= new_level
            invariant
                self.nodes == old(self).nodes,
                self.levels == old(self).levels,
                self.rows().len() >= shrunk.len(),
                self.rows().len() <= new_level + 1 || self.rows().len() == shrunk.len(),
                forall|i: int|
                    0 <= i < self.rows().len() ==> #[trigger] self.rows()[i] == row_or_empty(
                        shrunk,
                        i,
                    ),
            decreases new_level + 1 - self.ranks@.len(),
        {
            let ghost prev = self.rows();
            self.ranks.push(Vec::new());
            proof {
                assert(self.rows() =~= prev.push(Seq::empty()));
            }
        }
        let ghost grown = self.rows();
        proof {
            assert(grown =~= grow_rows(shrunk, new_level + 1));
        }
        if let Option::Some(marker) = insert_before {
            proof {
                assert(grown[new_level as int].contains(marker)) by {
                    assert(old(self).rows()[new_level as int].contains(nh(marker.idx as int)));
                    assert(nh(marker.idx as int) == marker);
                    let k = choose|k: int|
                        0 <= k < old(self).rows()[new_level as int].len()
                            && old(self).rows()[new_level as int][k] == marker;
                    if curr_level == new_level {
                        let f = first_index_of(row0, node);
                        if k < f {
                            assert(grown[new_level as int][k] == marker);
                        } else {
                            assert(row0[k] == marker);
                            assert(k != f);
                            assert(grown[new_level as int][k - 1] == marker);
                        }
                    } else {
                        assert(grown[new_level as int][k] == marker);
                    }
                }
                lemma_first_index_of(grown[new_level as int], marker);
                assert(self.ranks@[new_level as int]@ == grown[new_level as int]);
            }
            let mpos = match find_first(&self.ranks[new_level], marker) {
                Some(p) => p,
                None => {
                    proof {
                        assert(false);
                    }
                    0
                },
            };
            proof {
                assert(grown[new_level as int].len() == self.ranks@[new_level as int].len());
                assert(0 <= first_index_of(grown[new_level as int], marker) < grown[
                    new_level as int].len());
                assert(mpos as int == first_index_of(grown[new_level as int], marker));
            }
            self.ranks[new_level].insert(mpos, node);
            self.levels[node.get_index()] = new_level;
            proof {
                assert(self.rows() =~= grown.update(
                    new_level as int,
                    grown[new_level as int].insert(
                        first_index_of(grown[new_level as int], marker),
                        node,
                    ),
                ));
            }
        } else {
            self.ranks[new_level].push(node);
            self.levels[node.get_index()] = new_level;
            proof {
                assert(self.rows() =~= grown.update(
                    new_level as int,
                    grown[new_level as int].push(node),
                ));
            }
        }
        proof {
            let this = *final(self);
            let curr = curr_level as int;
            let f = first_index_of(row0, node);
            assert(row0[f] == node);
            assert(this.edges_valid()) by {
                assert forall|a: int, j: int|
                    0 <= a < this.spec_len() && 0 <= j < this.succ_of(a).len() implies (
                #[trigger] this.succ_of(a)[j]).idx < this.spec_len() by {
                    assert(this.succ_of(a) == old(self).succ_of(a));
                }
            }
            assert(this.preds_valid()) by {
                assert forall|a: int, j: int|
                    0 <= a < this.spec_len() && 0 <= j < this.pred_of(a).len() implies (
                #[trigger] this.pred_of(a)[j]).idx < this.spec_len() by {
                    assert(this.pred_of(a) == old(self).pred_of(a));
                }
            }
            assert(this.symmetric()) by {
                assert forall|a: usize, b: usize|
                    a < this.spec_len() && b < this.spec_len() implies #[trigger] this.succ_count(
                    a,
                    b,
                ) == this.pred_count(a, b) by {
                    assert(this.succ_of(a as int) == old(self).succ_of(a as int));
                    assert(this.pred_of(b as int) == old(self).pred_of(b as int));
                    assert(old(self).succ_count(a, b) == old(self).pred_count(a, b));
                }
            }
            assert(rows_ms(this.rows()) =~= all_handles(this.spec_len())) by {
                lemma_rows_ms_update(old(self).rows(), curr, row0.remove(f));
                assert(row0.remove(f).to_multiset() =~= row0.to_multiset().remove(node));
                assert forall|x: NodeHandle|
                    rows_ms(shrunk).insert(node).count(x) == rows_ms(old(self).rows()).count(
                        x,
                    ) by {
                    assert(rows_ms(shrunk).add(row0.to_multiset()).count(x) == rows_ms(old(
                        self,
                    ).rows()).add(row0.to_multiset().remove(node)).count(x));
                    assert(row0.to_multiset().count(node) >= 1);
                }
                assert(rows_ms(shrunk).insert(node) =~= rows_ms(old(self).rows()));
                assert(rows_ms(grown) =~= rows_ms(shrunk)) by {
                    assert forall|x: NodeHandle| rows_ms(grown).count(x) == rows_ms(
                        shrunk,
                    ).count(x) by {
                        lemma_rows_ms_grow_count(shrunk, grown.len() as int, x);
                    }
                }
                if insert_before is Some {
                    let marker = insert_before->0;
                    let m = first_index_of(grown[new_level as int], marker);
                    lemma_insert_to_multiset(grown[new_level as int], m, node);
                    lemma_rows_ms_update(
                        grown,
                        new_level as int,
                        grown[new_level as int].insert(m, node),
                    );
                } else {
                    lemma_rows_ms_update(
                        grown,
                        new_level as int,
                        grown[new_level as int].push(node),
                    );
                }
                assert forall|x: NodeHandle|
                    rows_ms(this.rows()).count(x) == all_handles(this.spec_len()).count(x) by {
                    let g_row = grown[new_level as int];
                    if insert_before is Some {
                        let marker = insert_before->0;
                        let m = first_index_of(g_row, marker);
                        assert(rows_ms(this.rows()).add(g_row.to_multiset()).count(x) == rows_ms(
                            grown,
                        ).add(g_row.insert(m, node).to_multiset()).count(x));
                        assert(g_row.insert(m, node).to_multiset().count(x)
                            == g_row.to_multiset().insert(node).count(x));
                    } else {
                        assert(rows_ms(this.rows()).add(g_row.to_multiset()).count(x) == rows_ms(
                            grown,
                        ).add(g_row.push(node).to_multiset()).count(x));
                        assert(g_row.push(node).to_multiset().count(x)
                            == g_row.to_multiset().insert(node).count(x));
                    }
                    assert(rows_ms(this.rows()).count(x) == rows_ms(grown).insert(node).count(x));
                    assert(rows_ms(grown).insert(node).count(x) == rows_ms(shrunk).insert(
                        node,
                    ).count(x));
                    assert(rows_ms(old(self).rows()).count(x) == all_handles(
                        old(self).spec_len(),
                    ).count(x));
                }
            }
            assert forall|i: int| 0 <= i < this.spec_len()
                implies 0 <= #[trigger] this.spec_level(i) < this.rows().len()
                    && this.rows()[this.spec_level(i)].contains(nh(i)) by {
                if i == node.idx {
                    assert(this.spec_level(i) == new_level);
                    assert(this.rows()[new_level as int].contains(nh(i))) by {
                        assert(nh(i) == node);
                        if insert_before is Some {
                            let marker = insert_before->0;
                            let m = first_index_of(grown[new_level as int], marker);
                            assert(this.rows()[new_level as int][m] == node);
                        } else {
                            assert(this.rows()[new_level as int].last() == node);
                        }
                    }
                } else {
                    assert(this.spec_level(i) == old(self).spec_level(i));
                    let l = this.spec_level(i);
                    assert(old(self).rows()[l].contains(nh(i)));
                    assert(this.rows()[l].to_multiset().count(nh(i)) > 0) by {
                        assert(old(self).rows()[l].to_multiset().count(nh(i)) > 0);
                        assert(nh(i) != node) by {
                            assert(nh(i).idx == i);
                        }
                        if l == curr {
                            assert(shrunk[l].to_multiset() =~= row0.to_multiset().remove(node));
                        }
                        assert(shrunk[l].to_multiset().count(nh(i))
                            == old(self).rows()[l].to_multiset().count(nh(i)));
                        assert(grown[l] == shrunk[l]);
                        if l == new_level {
                            if insert_before is Some {
                                let marker = insert_before->0;
                                let m = first_index_of(grown[new_level as int], marker);
                                lemma_insert_to_multiset(grown[l], m, node);
                            }
                        } else {
                            assert(this.rows()[l] == grown[l]);
                        }
                    }
                }
            }
        }
    }
}

/// The handle counts of padded rows match those of the rows they pad.
pub proof fn lemma_rows_ms_grow_count(rows: Seq<Seq<NodeHandle>>, n: int, x: NodeHandle)
    requires
        n >= rows.len(),
    ensures
        rows_ms(grow_rows(rows, n)).count(x) == rows_ms(rows).count(x),
    decreases n,
{
    if n == rows.len() {
        assert(grow_rows(rows, n) =~= rows);
    } else {
        lemma_rows_ms_grow_count(rows, n - 1, x);
        assert(grow_rows(rows, n) =~= grow_rows(rows, n - 1).push(Seq::empty()));
        lemma_rows_ms_push_empty(grow_rows(rows, n - 1));
    }
}


/// The set of indices marked true.
pub open spec fn marked(bs: Seq<bool>) -> Set<int> {
    Set::new(|i: int| 0 <= i < bs.len() && bs[i])
}

impl DAG {
    /// Whether `to` can be reached from `from` along successor edges while
    /// avoiding the nodes in `visited`. This is the mathematical meaning of
    /// the depth-first search in `is_reachable`.
    pub open spec fn reach_avoid(&self, from: int, to: int, visited: Set<int>) -> bool
        decreases self.spec_len() - visited.len()
            when visited.finite() && visited.subset_of(Set::new(|i: int| 0 <= i < self.spec_len()))
            && 0 <= from < self.spec_len() && self.edges_valid()
            via Self::reach_avoid_decreases
    {
        if from == to {
            true
        } else if visited.contains(from) {
            false
        } else {
            exists|k: int|
                0 <= k < self.succ_of(from).len() && self.reach_avoid(
                    self.succ_of(from)[k].idx as int,
                    to,
                    visited.insert(from),
                )
        }
    }

    #[via_fn]
    proof fn reach_avoid_decreases(&self, from: int, to: int, visited: Set<int>) {
        if visited.finite() && visited.subset_of(Set::new(|i: int| 0 <= i < self.spec_len()))
            && 0 <= from < self.spec_len() && self.edges_valid() {
            let rng = Set::new(|i: int| 0 <= i < self.spec_len());
            assert(rng.finite() && rng.len() == self.spec_len()) by {
                vstd::set_lib::lemma_int_range(0, self.spec_len() as int);
                assert(rng =~= vstd::set_lib::set_int_range(0, self.spec_len() as int));
            }
            assert(visited.insert(from).subset_of(rng));
            vstd::set_lib::lemma_len_subset(visited.insert(from), rng);
        }
    }

    /// Whether there is a directed path from `from` to `to`.
    pub open spec fn spec_reachable(&self, from: int, to: int) -> bool {
        self.reach_avoid(from, to, Set::empty())
    }

    /// No edge `from -> dest` with `from != dest` closes a directed cycle.
    pub open spec fn spec_acyclic(&self) -> bool {
        forall|a: int, j: int|
            0 <= a < self.spec_len() && 0 <= j < self.succ_of(a).len() ==> {
                let d = (#[trigger] self.succ_of(a)[j]).idx as int;
                !(self.reach_avoid(d, a, Set::empty()) && a != d)
            }
    }

    fn is_reachable_inner(&self, from: NodeHandle, to: NodeHandle, visited: &mut Vec<bool>) -> (r:
        bool)
        requires
            self.wf(),
            from.idx < self.spec_len(),
            to.idx < self.spec_len(),
            old(visited)@.len() == self.spec_len(),
            !old(visited)@[from.idx as int],
        ensures
            final(visited)@.len() == old(visited)@.len(),
            r == self.reach_avoid(from.idx as int, to.idx as int, marked(old(visited)@)),
            !r ==> final(visited)@ == old(visited)@,
        decreases self.spec_len() - marked(old(visited)@).len(),
    {
        proof {
            lemma_marked_props(old(visited)@);
        }
        if from == to {
            return true;
        }
        if visited[from.get_index()] {
            // Unreachable under the precondition; kept for symmetry with the
            // recursion's structure.
            return false;
        }
        // Push onto the DFS stack.
        visited[from.get_index()] = true;
        proof {
            assert(marked(visited@) =~= marked(old(visited)@).insert(from.idx as int));
            lemma_marked_props(visited@);
        }
        let ghost mid = visited@;
        let succs_len = self.nodes[from.idx].successors.len();
        let mut k: usize = 0;
        while k < succs_len
            invariant
                self.wf(),
                from.idx < self.spec_len(),
                to.idx < self.spec_len(),
                succs_len == self.succ_of(from.idx as int).len(),
                k <= succs_len,
                visited@ == mid,
                mid.len() == self.spec_len(),
                old(visited)@.len() == self.spec_len(),
                marked(mid) =~= marked(old(visited)@).insert(from.idx as int),
                !old(visited)@[from.idx as int],
                mid[from.idx as int],
                forall|j: int|
                    0 <= j < k ==> !self.reach_avoid(
                        (#[trigger] self.succ_of(from.idx as int)[j]).idx as int,
                        to.idx as int,
                        marked(mid),
                    ),
            decreases succs_len - k,
        {
            let edge = self.nodes[from.idx].successors[k];
            proof {
                lemma_marked_props(mid);
                lemma_marked_props(old(visited)@);
                assert(marked(mid) == marked(old(visited)@).insert(from.idx as int));
                assert((self.succ_of(from.idx as int)[k as int]).idx < self.spec_len());
            }
            if edge == to {
                // The successor is the target itself.
                proof {
                    assert(self.reach_avoid(edge.idx as int, to.idx as int, marked(mid)));
                    assert(self.reach_avoid(from.idx as int, to.idx as int, marked(old(
                        visited,
                    )@)));
                }
                return true;
            }
            if !visited[edge.get_index()] {
                proof {
                    assert(marked(mid).len() == marked(old(visited)@).len() + 1) by {
                        assert(!marked(old(visited)@).contains(from.idx as int));
                    }
                }
                if self.is_reachable_inner(edge, to, visited) {
                    proof {
                        assert(self.reach_avoid(edge.idx as int, to.idx as int, marked(mid)));
                        assert(self.reach_avoid(
                            from.idx as int,
                            to.idx as int,
                            marked(old(visited)@),
                        ));
                    }
                    return true;
                }
            } else {
                proof {
                    assert(marked(mid).contains(edge.idx as int));
                    assert(edge.idx != to.idx);
                    assert(!self.reach_avoid(edge.idx as int, to.idx as int, marked(mid)));
                }
            }
            k += 1;
        }
        // Pop from the DFS stack.
        visited[from.get_index()] = false;
        proof {
            assert(visited@ =~= old(visited)@);
            assert(!self.reach_avoid(from.idx as int, to.idx as int, marked(old(visited)@)));
        }
        false
    }

    /// True when there is a directed path from `from` to `to`.
    pub fn is_reachable(&self, from: NodeHandle, to: NodeHandle) -> (r: bool)
        requires
            self.wf(),
            from.idx < self.spec_len(),
            to.idx < self.spec_len(),
        ensures
            r == self.spec_reachable(from.idx as int, to.idx as int),
    {
        if from == to {
            return true;
        }
        let mut visited: Vec<bool> = Vec::new();
        let n = self.nodes.len();
        let mut i: usize = 0;
        while i < n
            invariant
                i <= n,
                visited@.len() == i,
                forall|j: int| 0 <= j < i ==> !visited@[j],
            decreases n - i,
        {
            visited.push(false);
            i += 1;
        }
        proof {
            assert(marked(visited@) =~= Set::<int>::empty());
        }
        self.is_reachable_inner(from, to, &mut visited)
    }

    /// Check the structural invariants of the graph: edges in range, no
    /// directed cycles, and every node placed in a rank.
    pub fn verify(&self)
        requires
            self.wf(),
            self.spec_acyclic(),
    {
        if self.validate {
            // Check that the node indices are valid.
            let n = self.nodes.len();
            let mut i: usize = 0;
            while i < n
                invariant
                    self.wf(),
                    n == self.spec_len(),
                    i <= n,
                decreases n - i,
            {
                let mut j: usize = 0;
                let deg = self.nodes[i].successors.len();
                while j < deg
                    invariant
                        self.wf(),
                        n == self.spec_len(),
                        i < n,
                        deg == self.succ_of(i as int).len(),
                        j <= deg,
                    decreases deg - j,
                {
                    let edge = self.nodes[i].successors[j];
                    assert(edge.idx < n);
                    j += 1;
                }
                i += 1;
            }
            // Check that the graph has no directed cycle.
            let mut i: usize = 0;
            while i < n
                invariant
                    self.wf(),
                    self.spec_acyclic(),
                    n == self.spec_len(),
                    i <= n,
                decreases n - i,
            {
                let from = NodeHandle::new(i);
                let mut j: usize = 0;
                let deg = self.nodes[i].successors.len();
                while j < deg
                    invariant
                        self.wf(),
                        self.spec_acyclic(),
                        n == self.spec_len(),
                        i < n,
                        from == nh(i as int),
                        deg == self.succ_of(i as int).len(),
                        j <= deg,
                    decreases deg - j,
                {
                    let dest = self.nodes[i].successors[j];
                    let reachable = self.is_reachable(dest, from) && from != dest;
                    assert(!reachable);
                    j += 1;
                }
                i += 1;
            }
            // Check that all of the nodes sit in ranks.
            let cnt = self.count_nodes_in_ranks();
            assert(cnt == n);
        }
    }

    /// The number of nodes held by the rank rows, summed over the rows.
    fn count_nodes_in_ranks(&self) -> (r: usize)
        requires
            self.wf(),
        ensures
            r == self.spec_len(),
    {
        proof {
            assert(rows_ms(self.rows()).len() == all_handles(self.spec_len()).len());
            assert(all_handles(self.spec_len()).len() == self.spec_len());
        }
        let mut cnt: usize = 0;
        let nrows = self.ranks.len();
        let mut i: usize = 0;
        while i < nrows
            invariant
                self.wf(),
                nrows == self.rows().len(),
                i <= nrows,
                cnt == rows_ms(self.rows().take(i as int)).len(),
                rows_ms(self.rows()).len() == self.spec_len(),
            decreases nrows - i,
        {
            proof {
                lemma_rows_ms_take_len(self.rows(), i + 1);
                assert(self.rows().take(i + 1).drop_last() =~= self.rows().take(i as int));
                assert(self.rows().take(i + 1).last() == self.rows()[i as int]);
                assert(rows_ms(self.rows().take(i + 1)).len() == rows_ms(self.rows().take(
                    i as int,
                )).len() + self.rows()[i as int].to_multiset().len());
            }
            cnt = cnt + self.ranks[i].len();
            i += 1;
        }
        proof {
            assert(self.rows().take(nrows as int) =~= self.rows());
        }
        cnt
    }
}

/// The marked set of a boolean sequence is a finite set of valid indices.
pub proof fn lemma_marked_props(bs: Seq<bool>)
    ensures
        marked(bs).finite(),
        marked(bs).subset_of(Set::new(|i: int| 0 <= i < bs.len())),
        marked(bs).len() <= bs.len(),
    decreases bs.len(),
{
    if bs.len() == 0 {
        assert(marked(bs) =~= Set::<int>::empty());
    } else {
        let prefix = bs.drop_last();
        lemma_marked_props(prefix);
        if bs.last() {
            assert(marked(bs) =~= marked(prefix).insert(bs.len() - 1));
        } else {
            assert(marked(bs) =~= marked(prefix));
        }
    }
}

/// A prefix of the rows holds no more handles than all of the rows.
pub proof fn lemma_rows_ms_take_len(rows: Seq<Seq<NodeHandle>>, i: int)
    requires
        0 <= i <= rows.len(),
    ensures
        rows_ms(rows.take(i)).len() <= rows_ms(rows).len(),
    decreases rows.len() - i,
{
    if i == rows.len() {
        assert(rows.take(i) =~= rows);
    } else {
        lemma_rows_ms_take_len(rows, i + 1);
        assert(rows.take(i + 1).drop_last() =~= rows.take(i));
        assert(rows.take(i + 1).last() == rows[i]);
    }
}


/// Validity of adjacency lists, stated over the bare node sequence.
pub open spec fn nodes_edges_valid(nodes: Seq<Node>) -> bool {
    forall|a: int, j: int|
        0 <= a < nodes.len() && 0 <= j < nodes[a].successors@.len()
            ==> (#[trigger] nodes[a].successors@[j]).idx < nodes.len()
}

/// The state of the worklist-driven depth-first traversal: the post-order
/// built so far, the visit marks, and the worklist of pending commands
/// (`true` marks a post-order emit, `false` a visit).
pub struct TopoState {
    pub order: Seq<NodeHandle>,
    pub visited: Seq<bool>,
    pub worklist: Seq<(NodeHandle, bool)>,
}

impl TopoState {
    pub open spec fn wl_valid(&self, n: int) -> bool {
        forall|i: int|
            0 <= i < self.worklist.len() ==> (#[trigger] self.worklist[i]).0.idx < n
    }
}

/// One step of the traversal: pop the top command and act on it.
pub open spec fn topo_step(nodes: Seq<Node>, st: TopoState) -> TopoState {
    let current = st.worklist.last().0;
    let cmd = st.worklist.last().1;
    let wl = st.worklist.drop_last();
    if cmd {
        TopoState { order: st.order.push(current), visited: st.visited, worklist: wl }
    } else if st.visited[current.idx as int] {
        TopoState { order: st.order, visited: st.visited, worklist: wl }
    } else {
        TopoState {
            order: st.order,
            visited: st.visited.update(current.idx as int, true),
            worklist: wl.push((current, true)) + Seq::new(
                nodes[current.idx as int].successors@.len(),
                |j: int| (nodes[current.idx as int].successors@[j], false),
            ),
        }
    }
}

/// Run the traversal until the worklist drains; the result is the
/// post-order. This pins down exactly what the iterative depth-first
/// search computes.
pub open spec fn topo_run(nodes: Seq<Node>, st: TopoState) -> Seq<NodeHandle>
    decreases st.visited.len() - marked(st.visited).len(), st.worklist.len()
        when st.visited.len() == nodes.len() && st.wl_valid(nodes.len() as int)
        && nodes_edges_valid(nodes) via topo_run_decreases
{
    if st.worklist.len() == 0 {
        st.order
    } else {
        topo_run(nodes, topo_step(nodes, st))
    }
}

#[via_fn]
proof fn topo_run_decreases(nodes: Seq<Node>, st: TopoState) {
    if st.worklist.len() > 0 && st.visited.len() == nodes.len() && st.wl_valid(
        nodes.len() as int,
    ) && nodes_edges_valid(nodes) {
        let next = topo_step(nodes, st);
        lemma_marked_props(st.visited);
        lemma_marked_props(next.visited);
        let current = st.worklist.last().0;
        let cmd = st.worklist.last().1;
        assert(current.idx < nodes.len());
        if !cmd && !st.visited[current.idx as int] {
            assert(marked(next.visited) =~= marked(st.visited).insert(current.idx as int));
            assert(next.wl_valid(nodes.len() as int)) by {
                assert forall|i: int| 0 <= i < next.worklist.len() implies (
                #[trigger] next.worklist[i]).0.idx < nodes.len() by {
                    let wl = st.worklist.drop_last();
                    if i < wl.len() {
                        assert(next.worklist[i] == st.worklist[i]);
                    } else if i == wl.len() {
                        assert(next.worklist[i].0 == current);
                    } else {
                        let off = i - wl.len() - 1;
                        assert(next.worklist[i].0 == nodes[current.idx as int].successors@[off]);
                    }
                }
            }
        } else {
            assert(next.wl_valid(nodes.len() as int)) by {
                assert forall|i: int| 0 <= i < next.worklist.len() implies (
                #[trigger] next.worklist[i]).0.idx < nodes.len() by {
                    assert(next.worklist[i] == st.worklist[i]);
                }
            }
        }
    }
}

/// The starting state: nothing ordered, nothing visited, every node queued.
pub open spec fn topo_init(nodes: Seq<Node>) -> TopoState {
    TopoState {
        order: Seq::empty(),
        visited: Seq::new(nodes.len(), |i: int| false),
        worklist: Seq::new(nodes.len(), |i: int| (nh(i), false)),
    }
}

/// The reverse post-order of the depth-first traversal: the topological
/// sort that `DAG::topological_sort` returns.
pub open spec fn spec_topo_order(nodes: Seq<Node>) -> Seq<NodeHandle> {
    topo_run(nodes, topo_init(nodes)).reverse()
}

impl DAG {
    /// The topological-sort order of the nodes, as the reverse post-order of
    /// an iterative depth-first scan. The result is a fixed function of the
    /// nodes and their edges.
    pub fn topological_sort(&self) -> (r: Vec<NodeHandle>)
        requires
            self.wf(),
        ensures
            r@ == spec_topo_order(self.nodes@),
            forall|k: int| 0 <= k < r@.len() ==> (#[trigger] r@[k]).idx < self.spec_len(),
    {
        let n = self.nodes.len();
        // A list of nodes in post-order.
        let mut order: Vec<NodeHandle> = Vec::new();
        // Marks that a node has been visited.
        let mut visited: Vec<bool> = Vec::new();
        let mut i: usize = 0;
        while i < n
            invariant
                i <= n,
                visited@ =~= Seq::new(i as nat, |j: int| false),
            decreases n - i,
        {
            visited.push(false);
            i += 1;
        }
        // A worklist of pairs of a handle and a command: `true` to emit the
        // node in post-order, `false` to visit it.
        let mut worklist: Vec<(NodeHandle, bool)> = Vec::new();
        let mut i: usize = 0;
        while i < n
            invariant
                i <= n,
                worklist@ =~= Seq::new(i as nat, |j: int| (nh(j), false)),
            decreases n - i,
        {
            worklist.push((NodeHandle::new(i), false));
            i += 1;
        }
        proof {
            let ghost st0 = TopoState { order: order@, visited: visited@, worklist: worklist@ };
            assert(st0.order =~= topo_init(self.nodes@).order);
            assert(st0.visited =~= topo_init(self.nodes@).visited);
            assert(st0.worklist =~= topo_init(self.nodes@).worklist);
        }
        proof {
            assert(nodes_edges_valid(self.nodes@)) by {
                assert forall|a: int, j: int|
                    0 <= a < self.nodes@.len() && 0 <= j < self.nodes@[a].successors@.len() implies (
                #[trigger] self.nodes@[a].successors@[j]).idx < self.nodes@.len() by {
                    assert((self.succ_of(a)[j]).idx < self.spec_len());
                }
            }
        }
        while worklist.len() > 0
            invariant
                self.wf(),
                nodes_edges_valid(self.nodes@),
                n == self.spec_len(),
                visited@.len() == n,
                forall|t: int| 0 <= t < order@.len() ==> (#[trigger] order@[t]).idx < n,
                (TopoState { order: order@, visited: visited@, worklist: worklist@ }).wl_valid(
                    n as int,
                ),
                topo_run(
                    self.nodes@,
                    (TopoState { order: order@, visited: visited@, worklist: worklist@ }),
                ) == topo_run(self.nodes@, topo_init(self.nodes@)),
            decreases visited@.len() - marked(visited@).len(), worklist@.len(),
        {
            let ghost pre = TopoState { order: order@, visited: visited@, worklist: worklist@ };
            let (current, cmd) = match worklist.pop() {
                Some(p) => p,
                None => {
                    proof {
                        assert(false);
                    }
                    (NodeHandle::new(0), false)
                },
            };
            proof {
                assert(pre.worklist.last() == (current, cmd));
                lemma_marked_props(visited@);
            }
            if cmd {
                // Handle an emit command.
                order.push(current);
            } else if visited[current.get_index()] {
                // Do not visit twice.
            } else {
                visited[current.get_index()] = true;
                // Emit this node after all of its children are handled.
                worklist.push((current, true));
                // Queue the children.
                let deg = self.nodes[current.get_index()].successors.len();
                let mut j: usize = 0;
                let ghost base = worklist@;
                while j < deg
                    invariant
                        current.idx < n,
                        n == self.spec_len(),
                        deg == self.succ_of(current.idx as int).len(),
                        j <= deg,
                        worklist@ =~= base + Seq::new(
                            j as nat,
                            |t: int| (self.succ_of(current.idx as int)[t], false),
                        ),
                    decreases deg - j,
                {
                    let edge = self.nodes[current.get_index()].successors[j];
                    worklist.push((edge, false));
                    j += 1;
                }
            }
            proof {
                let post = TopoState { order: order@, visited: visited@, worklist: worklist@ };
                assert(post.order =~= topo_step(self.nodes@, pre).order);
                assert(post.visited =~= topo_step(self.nodes@, pre).visited);
                assert(post.worklist =~= topo_step(self.nodes@, pre).worklist);
                assert(post == topo_step(self.nodes@, pre)) by {
                    assert(post.order == topo_step(self.nodes@, pre).order);
                    assert(post.visited == topo_step(self.nodes@, pre).visited);
                    assert(post.worklist == topo_step(self.nodes@, pre).worklist);
                }
                lemma_marked_props(pre.visited);
                lemma_marked_props(post.visited);
                if !cmd && !pre.visited[current.idx as int] {
                    assert(marked(post.visited) =~= marked(pre.visited).insert(
                        current.idx as int,
                    ));
                }
                assert(post.wl_valid(n as int)) by {
                    assert forall|i: int| 0 <= i < post.worklist.len() implies (
                    #[trigger] post.worklist[i]).0.idx < n by {
                        let wl = pre.worklist.drop_last();
                        if i < wl.len() {
                            assert(post.worklist[i] == pre.worklist[i]);
                        }
                    }
                }
                assert(topo_run(self.nodes@, pre) == topo_run(self.nodes@, post));
            }
        }
        // Turn the post-order into a reverse post-order.
        let mut rpo: Vec<NodeHandle> = Vec::new();
        let total = order.len();
        let mut i: usize = 0;
        while i < total
            invariant
                i <= total,
                total == order@.len(),
                forall|t: int| 0 <= t < order@.len() ==> (#[trigger] order@[t]).idx < n,
                n == self.spec_len(),
                rpo@ =~= order@.reverse().take(i as int),
            decreases total - i,
        {
            proof {
                assert(order@.reverse().take(i + 1).drop_last() =~= order@.reverse().take(i as int));
                assert(order@.reverse()[i as int] == order@[total - 1 - i]);
            }
            rpo.push(order[total - 1 - i]);
            i += 1;
        }
        proof {
            assert(order@.reverse().take(total as int) =~= order@.reverse());
            assert(rpo@ =~= order@.reverse());
            let fin = TopoState { order: order@, visited: visited@, worklist: worklist@ };
            assert(topo_run(self.nodes@, fin) == fin.order);
            assert(order@ == topo_run(self.nodes@, topo_init(self.nodes@)));
        }
        rpo
    }
}


/// The levels after the first `j` successors of `src` have been folded in:
/// each raises its target to one past the level of `src`, if below it.
/// Self-edges are ignored.
pub open spec fn apply_succs(levels: Seq<usize>, succs: Seq<NodeHandle>, src: int, j: int) -> Seq<
    usize,
>
    decreases j,
{
    if j <= 0 {
        levels
    } else {
        let prev = apply_succs(levels, succs, src, j - 1);
        let d = succs[j - 1].idx as int;
        if d == src {
            prev
        } else if prev[d] as int >= prev[src] as int + 1 {
            prev
        } else {
            prev.update(d, ((prev[src] + 1) as usize))
        }
    }
}

/// The levels after the first `k` nodes of `order` have been processed,
/// starting from all zeroes: the longest-path layering along `order`.
pub open spec fn levels_run(nodes: Seq<Node>, order: Seq<NodeHandle>, k: int) -> Seq<usize>
    decreases k,
{
    if k <= 0 {
        Seq::new(nodes.len(), |i: int| 0usize)
    } else {
        let prev = levels_run(nodes, order, k - 1);
        let src = order[k - 1].idx as int;
        apply_succs(prev, nodes[src].successors@, src, nodes[src].successors@.len() as int)
    }
}

/// What `compute_levels` returns for a given traversal order.
pub open spec fn spec_levels_of(nodes: Seq<Node>, order: Seq<NodeHandle>) -> Seq<usize> {
    levels_run(nodes, order, order.len() as int)
}

/// The level of each node after recomputation: the longest-path layering
/// along the topological order. A function of the nodes and edges alone.
pub open spec fn spec_recomputed_levels(nodes: Seq<Node>) -> Seq<usize> {
    spec_levels_of(nodes, spec_topo_order(nodes))
}

/// The rank rows after the first `k` nodes have been placed on the row of
/// their level, in handle order.
pub open spec fn build_rows(levels: Seq<usize>, k: int) -> Seq<Seq<NodeHandle>>
    decreases k,
{
    if k <= 0 {
        Seq::empty()
    } else {
        let prev = build_rows(levels, k - 1);
        let lv = levels[k - 1] as int;
        let grown = grow_rows(prev, lv + 1);
        grown.update(lv, grown[lv].push(nh(k - 1)))
    }
}

/// The rank rows after recomputation. A function of the nodes and edges
/// alone.
pub open spec fn spec_recomputed_rows(nodes: Seq<Node>) -> Seq<Seq<NodeHandle>> {
    build_rows(spec_recomputed_levels(nodes), nodes.len() as int)
}

impl DAG {
    /// Compute the level of each node: scan the nodes in the given order and
    /// raise every (non-self) successor to one level past its source where
    /// needed. When `order` is a topological order this yields the
    /// longest-path layering.
    pub fn compute_levels(&self, order: &Vec<NodeHandle>) -> (r: Vec<usize>)
        requires
            self.wf(),
            forall|k: int| 0 <= k < order@.len() ==> (#[trigger] order@[k]).idx < self.spec_len(),
        ensures
            r@ == spec_levels_of(self.nodes@, order@),
            r@.len() == self.spec_len(),
            forall|v: int| 0 <= v < r@.len() ==> #[trigger] r@[v] <= order@.len(),
    {
        let n = self.nodes.len();
        // Levels has the same layout as the node list.
        let mut levels: Vec<usize> = Vec::new();
        let mut i: usize = 0;
        while i < n
            invariant
                i <= n,
                levels@ =~= Seq::new(i as nat, |j: int| 0usize),
            decreases n - i,
        {
            levels.push(0);
            i += 1;
        }
        proof {
            assert(levels@ =~= levels_run(self.nodes@, order@, 0));
        }
        // For each node in the order, update the level of all successors.
        let total = order.len();
        let mut k: usize = 0;
        while k < total
            invariant
                self.wf(),
                n == self.spec_len(),
                total == order@.len(),
                forall|t: int| 0 <= t < order@.len() ==> (#[trigger] order@[t]).idx < n,
                k <= total,
                levels@ == levels_run(self.nodes@, order@, k as int),
                levels@.len() == n,
                forall|v: int| 0 <= v < n ==> #[trigger] levels@[v] <= k,
            decreases total - k,
        {
            let src = order[k];
            let deg = self.nodes[src.get_index()].successors.len();
            let ghost base = levels@;
            let ghost succs = self.succ_of(src.idx as int);
            let mut j: usize = 0;
            while j < deg
                invariant
                    self.wf(),
                    n == self.spec_len(),
                    src.idx < n,
                    succs == self.succ_of(src.idx as int),
                    deg == succs.len(),
                    j <= deg,
                    k < total,
                    total == order@.len(),
                    total <= usize::MAX,
                    base.len() == n,
                    forall|v: int| 0 <= v < n ==> #[trigger] base[v] <= k,
                    levels@ == apply_succs(base, succs, src.idx as int, j as int),
                    levels@.len() == n,
                    levels@[src.idx as int] == base[src.idx as int],
                    forall|v: int| 0 <= v < n ==> #[trigger] levels@[v] <= k + 1,
                decreases deg - j,
            {
                let dest = self.nodes[src.get_index()].successors[j];
                // Ignore self edges.
                if src.get_index() != dest.get_index() {
                    let bump = levels[src.get_index()] + 1;
                    if levels[dest.get_index()] < bump {
                        levels[dest.get_index()] = bump;
                    }
                }
                j += 1;
            }
            k += 1;
        }
        levels
    }

    /// Place every node on the row of its recomputed level. The resulting
    /// levels and rows are a function of the nodes and their edges alone,
    /// which is why recomputing a second time changes nothing.
    pub fn recompute_node_ranks(&mut self)
        requires
            old(self).wf(),
            old(self).spec_len() > 0,
            old(self).spec_len() < usize::MAX,
        ensures
            final(self).wf(),
            final(self).nodes == old(self).nodes,
            final(self).spec_len() == old(self).spec_len(),
            final(self).levels@ == spec_recomputed_levels(old(self).nodes@),
            final(self).rows() == spec_recomputed_rows(old(self).nodes@),
    {
        let order = self.topological_sort();
        let levels = self.compute_levels(&order);
        self.ranks.clear();
        proof {
            assert(self.rows() =~= build_rows(levels@, 0));
            assert(rows_ms(self.rows()) =~= all_handles(0)) by {
                assert(Seq::new(0, |i: int| nh(i)) =~= Seq::<NodeHandle>::empty());
            }
        }
        let n = levels.len();
        let mut i: usize = 0;
        while i < n
            invariant
                n == self.spec_len(),
                n < usize::MAX,
                i <= n,
                self.nodes == old(self).nodes,
                self.validate == old(self).validate,
                levels@.len() == n,
                self.levels@.len() == n,
                forall|v: int| 0 <= v < i ==> self.levels@[v] == levels@[v],
                self.rows() == build_rows(levels@, i as int),
                rows_ms(self.rows()) =~= all_handles(i as nat),
                forall|v: int|
                    0 <= v < i
                        ==> 0 <= #[trigger] self.spec_level(v) < self.rows().len()
                            && self.rows()[self.spec_level(v)].contains(nh(v)),
            decreases n - i,
        {
            let ghost pre = *self;
            self.add_element_to_rank(NodeHandle::new(i), levels[i], false);
            proof {
                let this = *self;
                let lv = levels@[i as int] as int;
                assert(this.rows() =~= build_rows(levels@, i + 1)) by {
                    let grown = grow_rows(pre.rows(), lv + 1);
                    assert forall|t: int| 0 <= t < this.rows().len() && t != lv
                        implies this.rows()[t] == grown[t] by {
                        assert(this.rows()[t] == row_or_empty(pre.rows(), t));
                    }
                    assert(this.rows()[lv] == grown[lv].push(nh(i as int))) by {
                        assert(grown[lv] == row_or_empty(pre.rows(), lv));
                    }
                }
                assert(rows_ms(this.rows()) =~= all_handles((i + 1) as nat)) by {
                    lemma_all_handles_snoc(i as nat);
                }
                assert forall|v: int|
                    0 <= v < i + 1 implies 0 <= #[trigger] this.spec_level(v) < this.rows().len()
                        && this.rows()[this.spec_level(v)].contains(nh(v)) by {
                    if v == i {
                        assert(this.spec_level(v) == lv);
                        assert(this.rows()[lv].last() == nh(v));
                    } else {
                        assert(this.spec_level(v) == pre.spec_level(v));
                        let l = pre.spec_level(v);
                        let kk = choose|kk: int|
                            0 <= kk < pre.rows()[l].len() && pre.rows()[l][kk] == nh(v);
                        if l == lv {
                            assert(this.rows()[l] == row_or_empty(pre.rows(), l).push(nh(
                                i as int,
                            )));
                            assert(this.rows()[l][kk] == nh(v));
                        } else {
                            assert(this.rows()[l] == row_or_empty(pre.rows(), l));
                            assert(this.rows()[l][kk] == nh(v));
                        }
                        assert(this.rows()[l].contains(nh(v)));
                    }
                }
            }
            i += 1;
        }
        proof {
            let this = *final(self);
            assert(this.levels@ =~= spec_recomputed_levels(old(self).nodes@));
            assert(this.symmetric()) by {
                assert forall|a: usize, b: usize|
                    a < this.spec_len() && b < this.spec_len() implies #[trigger] this.succ_count(
                    a,
                    b,
                ) == this.pred_count(a, b) by {
                    assert(this.succ_of(a as int) == old(self).succ_of(a as int));
                    assert(this.pred_of(b as int) == old(self).pred_of(b as int));
                    assert(old(self).succ_count(a, b) == old(self).pred_count(a, b));
                }
            }
            assert(this.edges_valid()) by {
                assert forall|a: int, j: int|
                    0 <= a < this.spec_len() && 0 <= j < this.succ_of(a).len() implies (
                #[trigger] this.succ_of(a)[j]).idx < this.spec_len() by {
                    assert(this.succ_of(a) == old(self).succ_of(a));
                }
            }
            assert(this.preds_valid()) by {
                assert forall|a: int, j: int|
                    0 <= a < this.spec_len() && 0 <= j < this.pred_of(a).len() implies (
                #[trigger] this.pred_of(a)[j]).idx < this.spec_len() by {
                    assert(this.pred_of(a) == old(self).pred_of(a));
                }
            }
        }
    }
}

/// Recomputing the node ranks twice gives the ranks of one recomputation:
/// the operation is idempotent. `recompute_node_ranks` leaves the nodes and
/// edges unchanged and produces levels and rows that depend on the nodes
/// and edges alone, so a graph that already carries recomputed ranks is
/// mapped to itself.
pub proof fn lemma_recompute_node_ranks_idempotent(once: DAG, twice: DAG)
    requires
        // `once` is a graph just after `recompute_node_ranks`:
        once.levels@ == spec_recomputed_levels(once.nodes@),
        once.rows() == spec_recomputed_rows(once.nodes@),
        // `twice` is a graph just after running `recompute_node_ranks` on
        // `once`, as its postconditions describe it:
        twice.nodes == once.nodes,
        twice.levels@ == spec_recomputed_levels(once.nodes@),
        twice.rows() == spec_recomputed_rows(once.nodes@),
    ensures
        twice.levels@ == once.levels@,
        twice.rows() == once.rows(),
{
}


/// A row's count of a handle never exceeds the total count over all rows.
pub proof fn lemma_rows_ms_count_lower(rows: Seq<Seq<NodeHandle>>, r: int, x: NodeHandle)
    requires
        0 <= r < rows.len(),
    ensures
        rows_ms(rows).count(x) >= rows[r].to_multiset().count(x),
    decreases rows.len(),
{
    if r == rows.len() - 1 {
    } else {
        lemma_rows_ms_count_lower(rows.drop_last(), r, x);
        assert(rows.drop_last()[r] == rows[r]);
    }
}

impl DAG {
    /// Every handle sitting in a row of a well-formed graph names a node.
    pub proof fn lemma_row_member_valid(&self, r: int, k: int)
        requires
            self.wf(),
            0 <= r < self.rows().len(),
            0 <= k < self.rows()[r].len(),
        ensures
            (self.rows()[r][k]).idx < self.spec_len(),
    {
        let x = self.rows()[r][k];
        assert(self.rows()[r].contains(x));
        lemma_rows_ms_count_lower(self.rows(), r, x);
        lemma_all_handles_count(self.spec_len(), x);
        assert(rows_ms(self.rows()).count(x) > 0);
    }
}


/// A topological processing order for the given nodes: exactly the nodes,
/// each once, and every edge's source placed before its destination.
pub open spec fn is_topo_order(nodes: Seq<Node>, order: Seq<NodeHandle>) -> bool {
    &&& order.len() == nodes.len()
    &&& forall|k: int| 0 <= k < order.len() ==> (#[trigger] order[k]).idx < nodes.len()
    &&& forall|k1: int, k2: int|
        0 <= k1 < k2 < order.len() ==> order[k1] != order[k2]
    &&& forall|v: int| 0 <= v < nodes.len() ==> order.contains(nh(v))
    &&& forall|a: int, j: int|
        0 <= a < nodes.len() && 0 <= j < nodes[a].successors@.len() && (
        #[trigger] nodes[a].successors@[j]).idx != a ==> first_index_of(order, nh(a))
            < first_index_of(order, nh(nodes[a].successors@[j].idx as int))
}

/// When every level stays below `cap` and the source sits at least one
/// below it, folding successors in keeps every level at or below `cap`.
proof fn lemma_apply_succs_bound(
    levels: Seq<usize>,
    succs: Seq<NodeHandle>,
    src: int,
    j: int,
    cap: int,
)
    requires
        0 <= src < levels.len(),
        levels[src] as int + 1 <= cap,
        forall|t: int| 0 <= t < j ==> (#[trigger] succs[t]).idx < levels.len(),
        forall|v: int| 0 <= v < levels.len() ==> (#[trigger] levels[v]) as int <= cap,
    ensures
        apply_succs(levels, succs, src, j).len() == levels.len(),
        forall|v: int|
            0 <= v < levels.len() ==> (#[trigger] apply_succs(levels, succs, src, j)[v]) as int
                <= cap,
        apply_succs(levels, succs, src, j)[src] == levels[src],
    decreases j,
{
    if j > 0 {
        lemma_apply_succs_bound(levels, succs, src, j - 1, cap);
    }
}

/// Folding successors in never lowers a level and keeps the length. The
/// source level must have room to grow by one, so that no level wraps.
proof fn lemma_apply_succs_grows(levels: Seq<usize>, succs: Seq<NodeHandle>, src: int, j: int)
    requires
        0 <= src < levels.len(),
        (levels[src] as int) < usize::MAX,
        forall|t: int| 0 <= t < j ==> (#[trigger] succs[t]).idx < levels.len(),
    ensures
        apply_succs(levels, succs, src, j).len() == levels.len(),
        forall|v: int|
            0 <= v < levels.len() ==> (#[trigger] apply_succs(levels, succs, src, j)[v])
                >= levels[v],
        apply_succs(levels, succs, src, j)[src] == levels[src],
    decreases j,
{
    if j > 0 {
        lemma_apply_succs_grows(levels, succs, src, j - 1);
    }
}

/// Folding successors in changes no level other than those of the (first
/// `j`) successors, and never the source's own level.
proof fn lemma_apply_succs_frame(
    levels: Seq<usize>,
    succs: Seq<NodeHandle>,
    src: int,
    j: int,
    v: int,
)
    requires
        0 <= src < levels.len(),
        forall|t: int| 0 <= t < j ==> (#[trigger] succs[t]).idx < levels.len(),
        v == src || forall|t: int| 0 <= t < j ==> (#[trigger] succs[t]).idx != v,
    ensures
        apply_succs(levels, succs, src, j).len() == levels.len(),
        0 <= v < levels.len() ==> apply_succs(levels, succs, src, j)[v] == levels[v],
    decreases j,
{
    if j > 0 {
        lemma_apply_succs_frame(levels, succs, src, j - 1, v);
    }
}

/// After folding in a successor `b` of `src`, its level sits above the
/// level of `src` as it was when the fold began.
proof fn lemma_apply_succs_bump(
    levels: Seq<usize>,
    succs: Seq<NodeHandle>,
    src: int,
    j: int,
    t: int,
)
    requires
        0 <= t < j <= succs.len(),
        0 <= src < levels.len(),
        (levels[src] as int) < usize::MAX,
        forall|u: int| 0 <= u < j ==> (#[trigger] succs[u]).idx < levels.len(),
        (succs[t]).idx != src,
    ensures
        apply_succs(levels, succs, src, j)[succs[t].idx as int] as int >= levels[src] + 1,
    decreases j,
{
    let b = succs[t].idx as int;
    if j - 1 > t {
        lemma_apply_succs_bump(levels, succs, src, j - 1, t);
    }
    let prev = apply_succs(levels, succs, src, j - 1);
    lemma_apply_succs_frame(levels, succs, src, j - 1, src);
    assert(prev[src] == levels[src]);
    lemma_apply_succs_grows(levels, succs, src, j - 1);
    let d = succs[j - 1].idx as int;
    if d == src {
        assert(apply_succs(levels, succs, src, j) == prev);
    } else if prev[d] as int >= prev[src] as int + 1 {
        assert(apply_succs(levels, succs, src, j) == prev);
        if t == j - 1 {
            assert(d == b);
        }
    } else {
        assert(apply_succs(levels, succs, src, j) == prev.update(d, ((prev[src] + 1) as usize)));
        assert(((prev[src] + 1) as usize) as int == levels[src] + 1);
        if d != b {
            assert(apply_succs(levels, succs, src, j)[b] == prev[b]);
        }
    }
}

/// Each level stays at or below the number of processed steps.
proof fn lemma_levels_run_bounded(nodes: Seq<Node>, order: Seq<NodeHandle>, k: int)
    requires
        0 <= k <= order.len(),
        nodes_edges_valid(nodes),
        forall|t: int| 0 <= t < order.len() ==> (#[trigger] order[t]).idx < nodes.len(),
    ensures
        levels_run(nodes, order, k).len() == nodes.len(),
        forall|v: int|
            0 <= v < nodes.len() ==> (#[trigger] levels_run(nodes, order, k)[v]) as int <= k,
    decreases k,
{
    if k > 0 {
        lemma_levels_run_bounded(nodes, order, k - 1);
        if k - 1 < order.len() {
            let src = order[k - 1].idx as int;
            lemma_apply_succs_bound(
                levels_run(nodes, order, k - 1),
                nodes[src].successors@,
                src,
                nodes[src].successors@.len() as int,
                k,
            );
        }
    }
}

/// Later processing steps never lower a level.
proof fn lemma_levels_run_grows(nodes: Seq<Node>, order: Seq<NodeHandle>, k1: int, k2: int)
    requires
        0 <= k1 <= k2 <= order.len(),
        k2 <= usize::MAX,
        nodes_edges_valid(nodes),
        forall|k: int| 0 <= k < order.len() ==> (#[trigger] order[k]).idx < nodes.len(),
    ensures
        levels_run(nodes, order, k1).len() == nodes.len(),
        levels_run(nodes, order, k2).len() == nodes.len(),
        forall|v: int|
            0 <= v < nodes.len() ==> (#[trigger] levels_run(nodes, order, k2)[v]) >= levels_run(
                nodes,
                order,
                k1,
            )[v],
    decreases k2 - k1,
{
    lemma_levels_run_len(nodes, order, k1);
    lemma_levels_run_len(nodes, order, k2);
    if k1 < k2 {
        lemma_levels_run_grows(nodes, order, k1, k2 - 1);
        if k2 - 1 < order.len() {
            let src = order[k2 - 1].idx as int;
            lemma_levels_run_bounded(nodes, order, k2 - 1);
            lemma_apply_succs_grows(
                levels_run(nodes, order, k2 - 1),
                nodes[src].successors@,
                src,
                nodes[src].successors@.len() as int,
            );
        }
    }
}

/// Every processing step keeps the level sequence as long as the node
/// sequence.
proof fn lemma_levels_run_len(nodes: Seq<Node>, order: Seq<NodeHandle>, k: int)
    requires
        k <= order.len(),
        nodes_edges_valid(nodes),
        forall|t: int| 0 <= t < order.len() ==> (#[trigger] order[t]).idx < nodes.len(),
    ensures
        levels_run(nodes, order, k).len() == nodes.len(),
    decreases k,
{
    if k > 0 {
        lemma_levels_run_len(nodes, order, k - 1);
        if k - 1 < order.len() {
            let src = order[k - 1].idx as int;
            lemma_levels_run_bounded(nodes, order, k - 1);
            lemma_apply_succs_bound(
                levels_run(nodes, order, k - 1),
                nodes[src].successors@,
                src,
                nodes[src].successors@.len() as int,
                k,
            );
        }
    }
}

/// In a topological order, the level of a node is settled once the step of
/// its own position is reached: the only steps that could raise it belong
/// to its predecessors, which all come earlier.
proof fn lemma_levels_run_stable(nodes: Seq<Node>, order: Seq<NodeHandle>, u: int, k: int)
    requires
        is_topo_order(nodes, order),
        nodes_edges_valid(nodes),
        0 <= u < nodes.len(),
        first_index_of(order, nh(u)) <= k,
        k <= order.len(),
    ensures
        levels_run(nodes, order, k)[u] == levels_run(nodes, order, first_index_of(order, nh(u)))[u],
    decreases k,
{
    lemma_first_index_of(order, nh(u));
    assert(order.contains(nh(u)));
    let p = first_index_of(order, nh(u));
    if k > p {
        lemma_levels_run_stable(nodes, order, u, k - 1);
        if k - 1 < order.len() {
            let w = order[k - 1];
            let src = w.idx as int;
            // The step of `w` leaves `u` alone: the source of an edge into
            // `u` sits before the position of `u`, and the fold ignores its
            // own source anyway.
            if src != u {
                assert forall|t: int|
                    0 <= t < nodes[src].successors@.len() implies (
                #[trigger] nodes[src].successors@[t]).idx != u by {
                    if nodes[src].successors@[t].idx == u {
                        assert(first_index_of(order, nh(src)) < first_index_of(order, nh(u)));
                        assert(order[k - 1] == nh(src)) by {
                            assert(nh(src).idx == src);
                        }
                        assert(first_index_of(order, nh(src)) == k - 1) by {
                            lemma_first_index_of(order, nh(src));
                            assert(order.contains(nh(src)));
                            let f = first_index_of(order, nh(src));
                            if f < k - 1 {
                                assert(order[f] != order[k - 1]);
                            }
                        }
                    }
                }
            }
            lemma_levels_run_len(nodes, order, k - 1);
            lemma_apply_succs_frame(
                levels_run(nodes, order, k - 1),
                nodes[src].successors@,
                src,
                nodes[src].successors@.len() as int,
                u,
            );
        }
    }
}

/// The law of the longest-path layering: processed along a topological
/// order, every edge of the graph climbs at least one level, so ranks
/// strictly increase along edges. Self edges are exempt, as they are
/// ignored by the layering.
pub proof fn lemma_recomputed_levels_strict(nodes: Seq<Node>, order: Seq<NodeHandle>, a: int, j: int)
    requires
        is_topo_order(nodes, order),
        nodes_edges_valid(nodes),
        nodes.len() <= usize::MAX,
        0 <= a < nodes.len(),
        0 <= j < nodes[a].successors@.len(),
        (nodes[a].successors@[j]).idx != a,
        (nodes[a].successors@[j]).idx < nodes.len(),
    ensures
        spec_levels_of(nodes, order)[(nodes[a].successors@[j]).idx as int] as int >= spec_levels_of(
            nodes,
            order,
        )[a] + 1,
{
    let b = (nodes[a].successors@[j]).idx as int;
    let n = order.len() as int;
    lemma_first_index_of(order, nh(a));
    assert(order.contains(nh(a)));
    let p = first_index_of(order, nh(a));
    assert(order[p] == nh(a));
    // At step `p + 1` the successors of `a` are folded in, raising `b`
    // above the settled level of `a`.
    let before = levels_run(nodes, order, p);
    lemma_levels_run_len(nodes, order, p);
    lemma_levels_run_bounded(nodes, order, p);
    assert((before[a] as int) < usize::MAX) by {
        assert(before[a] as int <= p);
        assert(p < n);
    }
    assert(levels_run(nodes, order, p + 1) == apply_succs(
        before,
        nodes[a].successors@,
        a,
        nodes[a].successors@.len() as int,
    )) by {
        assert(order[p].idx == a);
    }
    lemma_apply_succs_bump(before, nodes[a].successors@, a, nodes[a].successors@.len() as int, j);
    assert(levels_run(nodes, order, p + 1)[b] as int >= before[a] + 1);
    // The level of `a` was already settled at its own step.
    lemma_levels_run_stable(nodes, order, a, n);
    lemma_levels_run_stable(nodes, order, a, p);
    // Levels only grow from step `p + 1` to the end.
    lemma_levels_run_grows(nodes, order, p + 1, n);
    assert(spec_levels_of(nodes, order)[b] >= levels_run(nodes, order, p + 1)[b]);
}

} // verus!
