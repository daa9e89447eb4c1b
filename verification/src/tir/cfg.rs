use vstd::prelude::*;

use crate::support::slotmap::Key;
use crate::support::slotmap::SecondaryMap;
use crate::svec::BlockList;
use crate::svec::block_list;
use crate::tir::block::Block;

verus! {

/// Per-block edge lists of the control-flow graph.
struct CFGNode {
    successors: BlockList,
    predecessors: BlockList,
}

/// The control-flow graph of a function: per-block successor and
/// predecessor lists plus the designated entry block.
///
/// Edges are stored bidirectionally, and the two directions always agree:
/// `s` appears among the successors of `p` exactly when `p` appears among
/// the predecessors of `s` (see `wf`).
pub struct CFG {
    nodes: SecondaryMap<Block, CFGNode>,
    entry: Block,
}

impl CFG {
    /// How many blocks the graph covers.
    pub closed spec fn nblocks(self) -> int {
        self.nodes@.len() as int
    }

    /// The successor list of block `b`, as raw block indices.
    pub closed spec fn succs_of(self, b: int) -> Seq<u16> {
        block_list(self.nodes@[b].successors)
    }

    /// The predecessor list of block `b`, as raw block indices.
    pub closed spec fn preds_of(self, b: int) -> Seq<u16> {
        block_list(self.nodes@[b].predecessors)
    }

    /// The designated entry block.
    pub closed spec fn entry_spec(self) -> Block {
        self.entry
    }

    /// Every stored edge endpoint is a block of the graph.
    pub open spec fn edges_in_range(self) -> bool {
        &&& forall|b: int, j: int|
            0 <= b < self.nblocks() && 0 <= j < self.succs_of(b).len()
                ==> #[trigger] self.succs_of(b)[j] < self.nblocks()
        &&& forall|b: int, j: int|
            0 <= b < self.nblocks() && 0 <= j < self.preds_of(b).len()
                ==> #[trigger] self.preds_of(b)[j] < self.nblocks()
    }

    /// Edge symmetry: for all blocks `p` and `s`, `s` appears in the
    /// successors of `p` exactly when `p` appears in the predecessors of
    /// `s`. Every graph this module hands out satisfies it.
    pub open spec fn wf(self) -> bool {
        &&& self.edges_in_range()
        &&& forall|p: u16, s: u16|
            p < self.nblocks() && s < self.nblocks() ==> (#[trigger] self.succs_of(
                p as int,
            ).contains(s) <==> #[trigger] self.preds_of(s as int).contains(p))
    }

    /// A fresh graph over `size` blocks with no edges.
    pub fn new(entry: Block, size: usize) -> (r: Self)
        ensures
            r.nblocks() == size,
            r.entry_spec() == entry,
            forall|b: int| 0 <= b < size ==> #[trigger] r.succs_of(b) == Seq::<u16>::empty(),
            forall|b: int| 0 <= b < size ==> #[trigger] r.preds_of(b) == Seq::<u16>::empty(),
            r.wf(),
    {
        let mut nodes_vec: Vec<CFGNode> = Vec::new();
        let mut i: usize = 0;
        while i < size
            invariant
                i <= size,
                nodes_vec@.len() == i,
                forall|b: int|
                    0 <= b < i ==> block_list(#[trigger] nodes_vec@[b].successors)
                        == Seq::<u16>::empty(),
                forall|b: int|
                    0 <= b < i ==> block_list(#[trigger] nodes_vec@[b].predecessors)
                        == Seq::<u16>::empty(),
            decreases size - i,
        {
            nodes_vec.push(CFGNode { successors: BlockList::new(), predecessors: BlockList::new() });
            i += 1;
        }
        CFG { nodes: SecondaryMap::from_vec(nodes_vec), entry }
    }

    /// Appends the directed edge from `predecessor` to `successor` to both
    /// edge lists.
    pub fn add_edge(&mut self, successor: Block, predecessor: Block)
        requires
            successor.0 < old(self).nblocks(),
            predecessor.0 < old(self).nblocks(),
        ensures
            edge_added(*final(self), *old(self), successor.0, predecessor.0),
            old(self).wf() ==> final(self).wf(),
    {
        let node_s = self.nodes.get_mut(successor);
        node_s.predecessors.push(predecessor);
        let node_p = self.nodes.get_mut(predecessor);
        node_p.successors.push(successor);
        proof {
            assert(edge_added(*self, *old(self), successor.0, predecessor.0));
            if old(self).wf() {
                lemma_edge_added_wf(*self, *old(self), successor.0, predecessor.0);
            }
        }
    }

    /// The predecessors of `block`.
    pub fn preds(&self, block: Block) -> (r: &[Block])
        requires
            block.0 < self.nblocks(),
        ensures
            r@.map_values(|b: Block| b.0) == self.preds_of(block.0 as int),
    {
        self.nodes.get(block).predecessors.as_slice()
    }

    /// The successors of `block`.
    pub fn succs(&self, block: Block) -> (r: &[Block])
        requires
            block.0 < self.nblocks(),
        ensures
            r@.map_values(|b: Block| b.0) == self.succs_of(block.0 as int),
    {
        self.nodes.get(block).successors.as_slice()
    }

    /// How many blocks the graph covers.
    pub fn blocks_count(&self) -> (r: usize)
        ensures
            r == self.nblocks(),
    {
        self.nodes.capacity()
    }

    /// The designated entry block.
    pub fn get_entry_block(&self) -> (r: Block)
        ensures
            r == self.entry_spec(),
    {
        self.entry
    }
}

/// `post` is `pre` with the edge from `p` to `s` appended: `s` at the end
/// of `p`'s successors, `p` at the end of `s`'s predecessors, everything
/// else unchanged.
pub open spec fn edge_added(post: CFG, pre: CFG, s: u16, p: u16) -> bool {
    &&& post.nblocks() == pre.nblocks()
    &&& post.entry_spec() == pre.entry_spec()
    &&& post.succs_of(p as int) == pre.succs_of(p as int).push(s)
    &&& post.preds_of(s as int) == pre.preds_of(s as int).push(p)
    &&& forall|b: int|
        0 <= b < pre.nblocks() && b != p ==> #[trigger] post.succs_of(b) == pre.succs_of(b)
    &&& forall|b: int|
        0 <= b < pre.nblocks() && b != s ==> #[trigger] post.preds_of(b) == pre.preds_of(b)
}

/// Appending one edge to both lists keeps edge symmetry.
proof fn lemma_edge_added_wf(post: CFG, pre: CFG, s: u16, p: u16)
    requires
        pre.wf(),
        s < pre.nblocks(),
        p < pre.nblocks(),
        edge_added(post, pre, s, p),
    ensures
        post.wf(),
{
    assert forall|b: int, j: int|
        0 <= b < post.nblocks() && 0 <= j < post.succs_of(b).len() implies #[trigger] post.succs_of(
        b,
    )[j] < post.nblocks() by {
        if b == p {
            assert(post.succs_of(b) == pre.succs_of(b).push(s));
            if j < pre.succs_of(b).len() {
                assert(pre.succs_of(b)[j] < pre.nblocks());
            }
        } else {
            assert(post.succs_of(b) == pre.succs_of(b));
            assert(pre.succs_of(b)[j] < pre.nblocks());
        }
    }
    assert forall|b: int, j: int|
        0 <= b < post.nblocks() && 0 <= j < post.preds_of(b).len() implies #[trigger] post.preds_of(
        b,
    )[j] < post.nblocks() by {
        if b == s {
            assert(post.preds_of(b) == pre.preds_of(b).push(p));
            if j < pre.preds_of(b).len() {
                assert(pre.preds_of(b)[j] < pre.nblocks());
            }
        } else {
            assert(post.preds_of(b) == pre.preds_of(b));
            assert(pre.preds_of(b)[j] < pre.nblocks());
        }
    }
    assert forall|q: u16, t: u16| q < post.nblocks() && t < post.nblocks() implies (
    #[trigger] post.succs_of(q as int).contains(t) <==> #[trigger] post.preds_of(
        t as int,
    ).contains(q)) by {
        lemma_push_contains(pre.succs_of(p as int), s, t);
        lemma_push_contains(pre.preds_of(s as int), p, q);
        if q == p && t == s {
            assert(post.succs_of(q as int).contains(t));
            assert(post.preds_of(t as int).contains(q));
        } else if q == p {
            assert(post.preds_of(t as int) == pre.preds_of(t as int));
            assert(post.succs_of(q as int).contains(t) == pre.succs_of(q as int).contains(t));
        } else if t == s {
            assert(post.succs_of(q as int) == pre.succs_of(q as int));
            assert(post.preds_of(t as int).contains(q) == pre.preds_of(t as int).contains(q));
        } else {
            assert(post.succs_of(q as int) == pre.succs_of(q as int));
            assert(post.preds_of(t as int) == pre.preds_of(t as int));
        }
    }
}

/// Membership in a sequence after a push.
proof fn lemma_push_contains(s: Seq<u16>, e: u16, x: u16)
    ensures
        s.push(e).contains(x) <==> (s.contains(x) || x == e),
{
    if s.contains(x) {
        let i = choose|i: int| 0 <= i < s.len() && s[i] == x;
        assert(s.push(e)[i] == x);
    }
    if s.push(e).contains(x) {
        let i = choose|i: int| 0 <= i < s.push(e).len() && s.push(e)[i] == x;
        if i < s.len() {
            assert(s[i] == x);
        }
    }
    assert(s.push(e)[s.len() as int] == e);
}

} // verus!
verus! {

/// `p` is a walk through `cfg` that starts at the entry block and follows
/// successor edges.
pub open spec fn is_path(cfg: CFG, p: Seq<u16>) -> bool {
    &&& p.len() > 0
    &&& p[0] == cfg.entry_spec().0
    &&& forall|k: int| 0 <= k < p.len() ==> #[trigger] p[k] < cfg.nblocks()
    &&& forall|k: int| 0 < k < p.len() ==> #[trigger] cfg.succs_of(p[k - 1] as int).contains(p[k])
}

/// Whether some walk from the entry block ends at `b`.
pub open spec fn reachable(cfg: CFG, b: u16) -> bool {
    exists|p: Seq<u16>| is_path(cfg, p) && p.last() == b
}

} // verus!
