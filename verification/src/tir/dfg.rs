use vstd::prelude::*;

use crate::support::slotmap::Key;
use crate::support::slotmap::SecondaryMap;
use crate::svec::BlockList;
use crate::svec::block_list;
use crate::tir::block::Block;

verus! {

/// Per-block edge lists of a dataflow graph.
struct DFGNode {
    successors: BlockList,
    predecessors: BlockList,
}

/// A dataflow graph over blocks: bidirectional edge lists without a
/// designated entry, with the same edge symmetry as the control-flow
/// graph.
pub struct DFG {
    nodes: SecondaryMap<Block, DFGNode>,
}

impl DFG {
    /// How many blocks the graph covers.
    pub closed spec fn nblocks(self) -> int {
        self.nodes@.len() as int
    }

    /// The successor list of block `b`, as raw block indices.
    pub closed spec fn succs_of(self, b: int) -> Seq<u16> {
        block_list(self.nodes@[b].successors)
    }

    /// The predecessor list of block `b`, as raw block indices.
    pub closed spec fn preds_of(self, b: int) -> Seq<u16> {
        block_list(self.nodes@[b].predecessors)
    }

    /// Edge symmetry: `s` appears among the successors of `p` exactly
    /// when `p` appears among the predecessors of `s`.
    pub open spec fn wf(self) -> bool {
        forall|p: u16, s: u16|
            p < self.nblocks() && s < self.nblocks() ==> (#[trigger] self.succs_of(
                p as int,
            ).contains(s) <==> #[trigger] self.preds_of(s as int).contains(p))
    }

    /// A fresh graph over `size` blocks with no edges.
    pub fn new(size: usize) -> (r: Self)
        ensures
            r.nblocks() == size,
            forall|b: int| 0 <= b < size ==> #[trigger] r.succs_of(b) == Seq::<u16>::empty(),
            forall|b: int| 0 <= b < size ==> #[trigger] r.preds_of(b) == Seq::<u16>::empty(),
            r.wf(),
    {
        let mut nodes_vec: Vec<DFGNode> = Vec::new();
        let mut i: usize = 0;
        while i < size
            invariant
                i <= size,
                nodes_vec@.len() == i,
                forall|b: int|
                    0 <= b < i ==> block_list(#[trigger] nodes_vec@[b].successors)
                        == Seq::<u16>::empty(),
                forall|b: int|
                    0 <= b < i ==> block_list(#[trigger] nodes_vec@[b].predecessors)
                        == Seq::<u16>::empty(),
            decreases size - i,
        {
            nodes_vec.push(DFGNode { successors: BlockList::new(), predecessors: BlockList::new() });
            i += 1;
        }
        DFG { nodes: SecondaryMap::from_vec(nodes_vec) }
    }

    /// A graph over no blocks at all.
    pub fn empty() -> (r: Self)
        ensures
            r.nblocks() == 0,
            r.wf(),
    {
        DFG { nodes: SecondaryMap::from_vec(Vec::new()) }
    }

    /// Appends the directed edge from `predecessor` to `successor` to
    /// both edge lists.
    pub fn add_edge(&mut self, successor: Block, predecessor: Block)
        requires
            successor.0 < old(self).nblocks(),
            predecessor.0 < old(self).nblocks(),
        ensures
            final(self).nblocks() == old(self).nblocks(),
            final(self).succs_of(predecessor.0 as int) == old(self).succs_of(
                predecessor.0 as int,
            ).push(successor.0),
            final(self).preds_of(successor.0 as int) == old(self).preds_of(
                successor.0 as int,
            ).push(predecessor.0),
            forall|b: int|
                0 <= b < old(self).nblocks() && b != predecessor.0
                    ==> #[trigger] final(self).succs_of(b) == old(self).succs_of(b),
            forall|b: int|
                0 <= b < old(self).nblocks() && b != successor.0
                    ==> #[trigger] final(self).preds_of(b) == old(self).preds_of(b),
    {
        let node_s = self.nodes.get_mut(successor);
        node_s.predecessors.push(predecessor);
        let node_p = self.nodes.get_mut(predecessor);
        node_p.successors.push(successor);
    }

    /// The predecessors of `block`.
    pub fn preds(&self, block: Block) -> (r: &[Block])
        requires
            block.0 < self.nblocks(),
        ensures
            r@.map_values(|b: Block| b.0) == self.preds_of(block.0 as int),
    {
        self.nodes.get(block).predecessors.as_slice()
    }

    /// The successors of `block`.
    pub fn succs(&self, block: Block) -> (r: &[Block])
        requires
            block.0 < self.nblocks(),
        ensures
            r@.map_values(|b: Block| b.0) == self.succs_of(block.0 as int),
    {
        self.nodes.get(block).successors.as_slice()
    }
}

} // verus!
