//! Shared pieces of the coordinate-assignment passes: which blocks a pass
//! may touch, and the edge-crossing test of the block-alignment step.

use vstd::prelude::*;
use crate::dag::nh;
use crate::dag::NodeHandle;

verus! {

/// Which blocks a placement pass is allowed to move: boxes, connectors,
/// both, or none of them.
#[derive(Clone, Copy)]
pub enum BlockKind {
    Box,
    Connector,
    Both,
    Neither,
}

impl BlockKind {
    /// Whether the pass may touch box blocks.
    pub fn is_box(&self) -> (r: bool)
        ensures
            r == (*self matches BlockKind::Both || *self matches BlockKind::Box),
    {
        match self {
            BlockKind::Neither | BlockKind::Connector => false,
            BlockKind::Both | BlockKind::Box => true,
        }
    }

    /// Whether the pass may touch connector blocks.
    pub fn is_connector(&self) -> (r: bool)
        ensures
            r == (*self matches BlockKind::Both || *self matches BlockKind::Connector),
    {
        match self {
            BlockKind::Neither | BlockKind::Box => false,
            BlockKind::Both | BlockKind::Connector => true,
        }
    }
}

/// The horizontal scan direction of a block-alignment run.
#[derive(Debug, Clone, Copy)]
pub enum OrderLR {
    LeftToRight,
    RightToLeft,
}

impl OrderLR {
    pub fn is_left_to_right(&self) -> (r: bool)
        ensures
            r == (*self matches OrderLR::LeftToRight),
    {
        match self {
            OrderLR::LeftToRight => true,
            OrderLR::RightToLeft => false,
        }
    }
}

/// The block-alignment step of the placer.
pub struct BK;

impl BK {
    /// Whether two edges between the same pair of rows cross: each edge is
    /// given by the index of its end in the upper row and the index of its
    /// end in the lower row, and two edges cross exactly when one starts
    /// strictly earlier above and ends at or after the other below, or the
    /// other way around.
    pub fn are_edges_crossing(e0: (usize, usize), e1: (usize, usize)) -> (r: bool)
        ensures
            r == !((e0.0 < e1.0 && e0.1 < e1.1) || (e0.0 > e1.0 && e0.1 > e1.1)),
    {
        let first_above = e0.0 < e1.0 && e0.1 < e1.1;
        let first_below = e0.0 > e1.0 && e0.1 > e1.1;
        !(first_above || first_below)
    }
}


/// The block-alignment bookkeeping of the placer: for every node, which
/// node of the row above it aligns to, and which node of the row below
/// aligns to it. The two sides always mirror each other.
pub struct NodeAttachInfo {
    pub above: Vec<Option<NodeHandle>>,
    pub below: Vec<Option<NodeHandle>>,
}

impl NodeAttachInfo {
    /// The two sides cover the same nodes, point at nodes, and mirror each
    /// other: `from` aligns up to `to` exactly when `to` aligns down to
    /// `from`.
    pub open spec fn wf(&self) -> bool {
        &&& self.above@.len() == self.below@.len()
        &&& forall|i: int|
            0 <= i < self.above@.len() && (#[trigger] self.above@[i]) is Some ==> {
                let j = self.above@[i]->0.idx;
                j < self.below@.len() && self.below@[j as int] == Some(nh(i))
            }
        &&& forall|i: int|
            0 <= i < self.below@.len() && (#[trigger] self.below@[i]) is Some ==> {
                let j = self.below@[i]->0.idx;
                j < self.above@.len() && self.above@[j as int] == Some(nh(i))
            }
    }

    pub fn new(size: usize) -> (r: Self)
        ensures
            r.wf(),
            r.above@.len() == size,
            r.below@.len() == size,
            forall|i: int| 0 <= i < size ==> (#[trigger] r.above@[i]) is None,
            forall|i: int| 0 <= i < size ==> (#[trigger] r.below@[i]) is None,
    {
        let mut above: Vec<Option<NodeHandle>> = Vec::new();
        let mut below: Vec<Option<NodeHandle>> = Vec::new();
        let mut i: usize = 0;
        while i < size
            invariant
                i <= size,
                above@.len() == i,
                below@.len() == i,
                forall|j: int| 0 <= j < i ==> (#[trigger] above@[j]) is None,
                forall|j: int| 0 <= j < i ==> (#[trigger] below@[j]) is None,
            decreases size - i,
        {
            above.push(None);
            below.push(None);
            i += 1;
        }
        Self { above, below }
    }

    /// Align the node `from` upward to the node `to`. Neither side may be
    /// aligned already, and a node never aligns to itself.
    pub fn add(&mut self, from: NodeHandle, to: NodeHandle)
        requires
            old(self).wf(),
            from.idx < old(self).above@.len(),
            to.idx < old(self).above@.len(),
            from.idx != to.idx,
            old(self).above@[from.idx as int] is None,
            old(self).below@[to.idx as int] is None,
        ensures
            final(self).wf(),
            final(self).above@ == old(self).above@.update(from.idx as int, Some(to)),
            final(self).below@ == old(self).below@.update(to.idx as int, Some(from)),
    {
        self.above[from.get_index()] = Some(to);
        self.below[to.get_index()] = Some(from);
        proof {
            let this = *final(self);
            assert forall|i: int|
                0 <= i < this.above@.len() && (#[trigger] this.above@[i]) is Some implies {
                let j = this.above@[i]->0.idx;
                j < this.below@.len() && this.below@[j as int] == Some(nh(i))
            } by {
                if i == from.idx {
                    assert(nh(i) == from);
                } else {
                    assert(this.above@[i] == old(self).above@[i]);
                    let j = this.above@[i]->0.idx;
                    assert(old(self).below@[j as int] == Some(nh(i)));
                    assert(j != to.idx);
                }
            }
            assert forall|i: int|
                0 <= i < this.below@.len() && (#[trigger] this.below@[i]) is Some implies {
                let j = this.below@[i]->0.idx;
                j < this.above@.len() && this.above@[j as int] == Some(nh(i))
            } by {
                if i == to.idx {
                    assert(nh(i) == to);
                } else {
                    assert(this.below@[i] == old(self).below@[i]);
                    let j = this.below@[i]->0.idx;
                    assert(old(self).above@[j as int] == Some(nh(i)));
                    assert(j != from.idx);
                }
            }
        }
    }

    /// The node that `node` aligns up to.
    pub fn above(&self, node: NodeHandle) -> (r: Option<NodeHandle>)
        requires
            node.idx < self.above@.len(),
        ensures
            r == self.above@[node.idx as int],
    {
        self.above[node.get_index()]
    }

    /// The node that aligns up to `node`.
    pub fn below(&self, node: NodeHandle) -> (r: Option<NodeHandle>)
        requires
            node.idx < self.below@.len(),
        ensures
            r == self.below@[node.idx as int],
    {
        self.below[node.get_index()]
    }

    /// Gather the alignment chains into vertical blocks, each listed bottom
    /// to top along the `above` links. A chain walk carries a step budget of
    /// the node count, which a chain over distinct nodes never exhausts.
    pub fn get_verticals(&mut self) -> (r: Vec<Vec<NodeHandle>>)
        requires
            old(self).wf(),
        ensures
            final(self).wf(),
            *final(self) == *old(self),
            old(self).above@.len() > 0 ==> r@.len() > 0,
            forall|k: int| 0 <= k < r@.len() ==> (#[trigger] r@[k])@.len() > 0,
            forall|k: int, t: int|
                0 <= k < r@.len() && 0 <= t < r@[k]@.len()
                    ==> (#[trigger] r@[k]@[t]).idx < old(self).above@.len(),
            // Each vertical follows the upward alignment links.
            forall|k: int, t: int|
                0 <= k < r@.len() && 0 <= t < r@[k]@.len() - 1
                    ==> old(self).above@[(#[trigger] r@[k]@[t]).idx as int] == Some(r@[k]@[t + 1]),
    {
        let n = self.above.len();
        // The list of constructed verticals.
        let mut res: Vec<Vec<NodeHandle>> = Vec::new();
        // The list of used nodes.
        let mut used: Vec<bool> = Vec::new();
        let mut i: usize = 0;
        while i < n
            invariant
                i <= n,
                used@.len() == i,
                forall|j: int| 0 <= j < i ==> !(#[trigger] used@[j]),
            decreases n - i,
        {
            used.push(false);
            i += 1;
        }

        // For each node in the graph:
        let mut i: usize = 0;
        while i < n
            invariant
                self.wf(),
                *self == *old(self),
                n == self.above@.len(),
                i <= n,
                used@.len() == n,
                res@.len() == 0 ==> !used@[0] || n == 0,
                i > 0 && n > 0 ==> res@.len() > 0,
                forall|k: int| 0 <= k < res@.len() ==> (#[trigger] res@[k])@.len() > 0,
                forall|k: int, t: int|
                    0 <= k < res@.len() && 0 <= t < res@[k]@.len()
                        ==> (#[trigger] res@[k]@[t]).idx < n,
                forall|k: int, t: int|
                    0 <= k < res@.len() && 0 <= t < res@[k]@.len() - 1
                        ==> self.above@[(#[trigger] res@[k]@[t]).idx as int] == Some(
                        res@[k]@[t + 1]),
            decreases n - i,
        {
            let mut vertical: Vec<NodeHandle> = Vec::new();

            // Don't visit visited nodes.
            if used[i] {
                i += 1;
            } else {
                // Find the bottom of the vertical.
                let mut idx = i;
                let mut steps = n;
                while steps > 0 && self.below[idx].is_some()
                    invariant
                        self.wf(),
                        n == self.above@.len(),
                        idx < n,
                        steps <= n,
                    decreases steps,
                {
                    let nxt = match self.below[idx] {
                        Some(h) => h,
                        None => NodeHandle::new(idx),
                    };
                    idx = nxt.get_index();
                    steps -= 1;
                }

                // Go up the vertical and save the nodes into the vector.
                vertical.push(NodeHandle::new(idx));
                let mut go = true;
                while go
                    invariant
                        self.wf(),
                        n == self.above@.len(),
                        used@.len() == n,
                        idx < n,
                        vertical@.len() > 0,
                        vertical@.last() == nh(idx as int),
                        forall|t: int|
                            0 <= t < vertical@.len() ==> (#[trigger] vertical@[t]).idx < n,
                        forall|t: int|
                            0 <= t < vertical@.len() - 1
                                ==> self.above@[(#[trigger] vertical@[t]).idx as int] == Some(
                                vertical@[t + 1]),
                    decreases count_unused(used@), (if go {
                        1int
                    } else {
                        0int
                    }),
                {
                    if self.above[idx].is_some() && !used[idx] {
                        // Wipe out the node so it won't take part in any
                        // future vertical.
                        let ghost upre = used@;
                        used[idx] = true;
                        proof {
                            lemma_count_unused_update(upre, idx as int);
                        }

                        // Move up to the next node.
                        let ghost prev_idx = idx as int;
                        let nxt = match self.above[idx] {
                            Some(h) => h,
                            None => NodeHandle::new(idx),
                        };
                        idx = nxt.get_index();
                        proof {
                            assert(self.above@[prev_idx] == Some(nh(idx as int)));
                        }

                        // Add the node to the vertical.
                        vertical.push(NodeHandle::new(idx));
                    } else {
                        go = false;
                    }
                }
                used[idx] = true;
                res.push(vertical);
                i += 1;
            }
        }

        res
    }
}

/// How many entries of `used` are still false.
pub open spec fn count_unused(used: Seq<bool>) -> int
    decreases used.len(),
{
    if used.len() == 0 {
        0
    } else {
        count_unused(used.drop_last()) + if used.last() {
            0int
        } else {
            1int
        }
    }
}

/// Marking an unmarked entry lowers the unused count by one.
proof fn lemma_count_unused_update(used: Seq<bool>, i: int)
    requires
        0 <= i < used.len(),
        !used[i],
    ensures
        count_unused(used.update(i, true)) == count_unused(used) - 1,
        count_unused(used) >= 1,
    decreases used.len(),
{
    if i == used.len() - 1 {
        assert(used.update(i, true).drop_last() =~= used.drop_last());
        lemma_count_unused_nonneg(used.drop_last());
    } else {
        assert(used.update(i, true).drop_last() =~= used.drop_last().update(i, true));
        lemma_count_unused_update(used.drop_last(), i);
    }
}

/// The unused count is never negative.
proof fn lemma_count_unused_nonneg(used: Seq<bool>)
    ensures
        count_unused(used) >= 0,
    decreases used.len(),
{
    if used.len() > 0 {
        lemma_count_unused_nonneg(used.drop_last());
    }
}

} // verus!
