use vstd::prelude::*;

use crate::support::slotmap::Key;
use crate::support::slotmap::PrimaryMap;
use crate::support::slotmap::PrimaryMapIter;
use crate::tir::block::Block;
use crate::tir::block::BlockData;
use crate::tir::cfg::CFG;
use crate::tir::errors::TirError;
use crate::tir::inst::Inst;
use vstd::pervasive::unreached;

verus! {

/// A register id: a dense index into one id space shared by physical and
/// virtual registers. Ids below a target's physical register count name
/// physical registers; the ids above them are virtual.
pub type Reg = u32;

/// The terminator of an instruction sequence: its last instruction, if
/// that instruction is a branch or a return.
pub open spec fn terminator_of<I: Inst>(s: Seq<I>) -> Option<I> {
    if s.len() > 0 && (s.last().spec_is_branch() || s.last().spec_is_ret()) {
        Some(s.last())
    } else {
        None
    }
}

/// The control-flow targets an instruction sequence branches to: the
/// branch targets of its terminator, empty when the terminator is a
/// return or missing.
pub open spec fn targets_of<I: Inst>(s: Seq<I>) -> Seq<u16> {
    match terminator_of(s) {
        Some(t) => if t.spec_is_branch() {
            t.spec_targets()
        } else {
            Seq::empty()
        },
        None => Seq::empty(),
    }
}

/// One function under compilation: an arena of basic blocks, a monotonic
/// register-id counter, the ordered register lists that carry its
/// arguments and results, and an optional cached control-flow graph that
/// every structural mutation invalidates.
pub struct Func<I: Inst> {
    name: String,
    blocks: PrimaryMap<Block, BlockData<I>>,
    regs_count: u32,
    args: Vec<Reg>,
    rets: Vec<Reg>,
    cfg: Option<CFG>,
}

/// `cfg` describes exactly the blocks of `f`: one node per block, entry at
/// block zero, successor lists read off the terminators, and predecessor
/// lists agreeing with them by edge symmetry.
pub open spec fn cfg_matches<I: Inst>(cfg: CFG, f: Func<I>) -> bool {
    &&& cfg.nblocks() == f.num_blocks()
    &&& cfg.entry_spec() == Block(0)
    &&& cfg.wf()
    &&& forall|b: int|
        0 <= b < f.num_blocks() ==> #[trigger] cfg.succs_of(b) == targets_of(f.insts_of(b))
}

impl<I: Inst> Func<I> {
    /// The function's name.
    pub closed spec fn name_spec(self) -> Seq<char> {
        self.name@
    }

    /// The block arena.
    pub closed spec fn blocks_view(self) -> Seq<BlockData<I>> {
        self.blocks@
    }

    /// The instructions of block `b`.
    pub open spec fn insts_of(self, b: int) -> Seq<I> {
        self.blocks_view()[b]@
    }

    /// How many blocks the function has.
    pub open spec fn num_blocks(self) -> int {
        self.blocks_view().len() as int
    }

    /// How many register ids are in use: the target's physical registers
    /// plus every virtual register handed out so far.
    pub closed spec fn regs_count_spec(self) -> u32 {
        self.regs_count
    }

    /// The cached control-flow graph, if one is current.
    pub closed spec fn cfg_spec(self) -> Option<CFG> {
        self.cfg
    }

    /// Every block ends in a terminator.
    pub open spec fn all_blocks_terminated(self) -> bool {
        forall|b: int| 0 <= b < self.num_blocks() ==> #[trigger] terminator_of(self.insts_of(b))
            is Some
    }

    /// Every branch target of every block names a block of the function.
    pub open spec fn targets_in_range(self) -> bool {
        forall|b: int, j: int|
            0 <= b < self.num_blocks() && 0 <= j < targets_of(self.insts_of(b)).len()
                ==> #[trigger] targets_of(self.insts_of(b))[j] < self.num_blocks()
    }

    /// The ordered registers that carry the function's arguments.
    pub closed spec fn args_spec(self) -> Seq<Reg> {
        self.args@
    }

    /// The ordered registers that carry the function's results.
    pub closed spec fn rets_spec(self) -> Seq<Reg> {
        self.rets@
    }

    /// A fresh function with no blocks and empty argument and result
    /// lists; the register counter starts at the target's physical
    /// register count.
    pub fn new(name: String) -> (r: Self)
        ensures
            r.name_spec() == name@,
            r.blocks_view() == Seq::<BlockData<I>>::empty(),
            r.regs_count_spec() == I::spec_preg_count(),
            r.args_spec() == Seq::<Reg>::empty(),
            r.rets_spec() == Seq::<Reg>::empty(),
            r.cfg_spec() is None,
    {
        let regs_count = I::preg_count();
        Func {
            name,
            regs_count,
            blocks: PrimaryMap::new(),
            args: Vec::new(),
            rets: Vec::new(),
            cfg: None,
        }
    }

    /// Replaces the function's argument register list.
    pub fn set_args(&mut self, args: Vec<Reg>)
        ensures
            final(self).args_spec() == args@,
            final(self).rets_spec() == old(self).rets_spec(),
            final(self).blocks_view() == old(self).blocks_view(),
            final(self).regs_count_spec() == old(self).regs_count_spec(),
            final(self).name_spec() == old(self).name_spec(),
            final(self).cfg_spec() == old(self).cfg_spec(),
    {
        self.args = args;
    }

    /// Replaces the function's result register list.
    pub fn set_rets(&mut self, rets: Vec<Reg>)
        ensures
            final(self).rets_spec() == rets@,
            final(self).args_spec() == old(self).args_spec(),
            final(self).blocks_view() == old(self).blocks_view(),
            final(self).regs_count_spec() == old(self).regs_count_spec(),
            final(self).name_spec() == old(self).name_spec(),
            final(self).cfg_spec() == old(self).cfg_spec(),
    {
        self.rets = rets;
    }

    /// The ordered argument registers.
    pub fn get_args(&self) -> (r: &Vec<Reg>)
        ensures
            r@ == self.args_spec(),
    {
        &self.args
    }

    /// The ordered result registers.
    pub fn get_rets(&self) -> (r: &Vec<Reg>)
        ensures
            r@ == self.rets_spec(),
    {
        &self.rets
    }

    /// Appends a block and returns its handle; the cached control-flow
    /// graph becomes stale and is dropped.
    pub fn add_block(&mut self, data: BlockData<I>) -> (b: Block)
        requires
            old(self).num_blocks() < u16::MAX,
        ensures
            final(self).blocks_view() == old(self).blocks_view().push(data),
            b.0 == old(self).num_blocks(),
            final(self).cfg_spec() is None,
            final(self).regs_count_spec() == old(self).regs_count_spec(),
            final(self).name_spec() == old(self).name_spec(),
    {
        self.invalidate_cfg();
        self.blocks.insert(data)
    }

    /// Appends an empty block and returns its handle.
    pub fn add_empty_block(&mut self) -> (b: Block)
        requires
            old(self).num_blocks() < u16::MAX,
        ensures
            final(self).blocks_view().len() == old(self).blocks_view().len() + 1,
            final(self).blocks_view().drop_last() == old(self).blocks_view(),
            final(self).insts_of(old(self).num_blocks()) == Seq::<I>::empty(),
            b.0 == old(self).num_blocks(),
            final(self).cfg_spec() is None,
            final(self).regs_count_spec() == old(self).regs_count_spec(),
            final(self).name_spec() == old(self).name_spec(),
    {
        self.invalidate_cfg();
        let b = self.blocks.insert(BlockData::new());
        proof {
            assert(final(self).blocks_view().drop_last() =~= old(self).blocks_view());
        }
        b
    }

    /// Mutable access to a block's instructions; the cached control-flow
    /// graph becomes stale and is dropped.
    pub fn get_block_data_mut(&mut self, block: Block) -> (r: &mut BlockData<I>)
        requires
            block.0 < old(self).num_blocks(),
        ensures
            *r == old(self).blocks_view()[block.0 as int],
            final(self).blocks_view() == old(self).blocks_view().update(
                block.0 as int,
                *final(r),
            ),
            final(self).cfg_spec() is None,
            final(self).regs_count_spec() == old(self).regs_count_spec(),
            final(self).name_spec() == old(self).name_spec(),
    {
        self.invalidate_cfg();
        self.blocks.get_mut(block)
    }

    /// Shared access to a block's instructions.
    pub fn get_block_data(&self, block: Block) -> (r: &BlockData<I>)
        requires
            block.0 < self.num_blocks(),
        ensures
            *r == self.blocks_view()[block.0 as int],
    {
        self.blocks.get(block)
    }

    /// Hands out the next virtual register id; ids are monotonic and never
    /// reused within the function's lifetime.
    pub fn new_vreg(&mut self) -> (r: Reg)
        requires
            old(self).regs_count_spec() < u32::MAX,
        ensures
            r == old(self).regs_count_spec(),
            final(self).regs_count_spec() == old(self).regs_count_spec() + 1,
            final(self).blocks_view() == old(self).blocks_view(),
            final(self).cfg_spec() == old(self).cfg_spec(),
            final(self).name_spec() == old(self).name_spec(),
    {
        let res = self.regs_count;
        self.regs_count = self.regs_count + 1;
        res
    }

    /// Builds the control-flow graph from the block terminators and caches
    /// it.
    ///
    /// Fails with `EmptyFunctionBody` on a function with no blocks, and
    /// with `BlockNotTerminated` naming the first block whose instruction
    /// sequence does not end in a terminator. On failure the function,
    /// its cached graph included, is left unchanged.
    pub fn construct_cfg(&mut self) -> (r: Result<(), TirError>)
        requires
            old(self).targets_in_range(),
            old(self).num_blocks() <= u16::MAX,
        ensures
            r is Ok <==> old(self).num_blocks() > 0 && old(self).all_blocks_terminated(),
            r == Result::<(), TirError>::Err(TirError::EmptyFunctionBody) <==> old(
                self,
            ).num_blocks() == 0,
            r matches Err(TirError::BlockNotTerminated(b)) ==> 0 <= b.0 < old(self).num_blocks()
                && terminator_of(old(self).insts_of(b.0 as int)) is None && (forall|j: int|
                0 <= j < b.0 ==> #[trigger] terminator_of(old(self).insts_of(j)) is Some),
            r is Err ==> *final(self) == *old(self),
            r is Ok ==> {
                &&& final(self).blocks_view() == old(self).blocks_view()
                &&& final(self).regs_count_spec() == old(self).regs_count_spec()
                &&& final(self).name_spec() == old(self).name_spec()
                &&& final(self).cfg_spec() matches Some(cfg) && cfg_matches(cfg, *old(self))
            },
    {
        let n = self.blocks.len();
        if n == 0 {
            return Err(TirError::EmptyFunctionBody);
        }
        let entry = Block::new(0);
        let mut cfg = CFG::new(entry, n);
        let mut bi: usize = 0;
        while bi < n
            invariant
                n == self.num_blocks(),
                self.targets_in_range(),
                bi <= n,
                n <= u16::MAX,
                cfg.nblocks() == n,
                cfg.entry_spec() == Block(0),
                cfg.wf(),
                forall|b: int|
                    0 <= b < bi ==> #[trigger] cfg.succs_of(b) == targets_of(self.insts_of(b)),
                forall|b: int|
                    bi <= b < n ==> #[trigger] cfg.succs_of(b) == Seq::<u16>::empty(),
                forall|b: int| 0 <= b < bi ==> #[trigger] terminator_of(self.insts_of(b)) is Some,
            decreases n - bi,
        {
            let block = Block::new(bi);
            let term_opt = self.blocks.get(block).get_terminator();
            match term_opt {
                Some(term) => {
                    if term.is_branch() {
                        let targets = term.get_branch_targets();
                        let ts = targets.as_slice();
                        let ghost goal = targets_of(self.insts_of(bi as int));
                        proof {
                            assert(ts@.map_values(|b: Block| b.0) == goal);
                        }
                        let mut j: usize = 0;
                        while j < ts.len()
                            invariant
                                n == self.num_blocks(),
                                self.targets_in_range(),
                                bi < n,
                                n <= u16::MAX,
                                block.0 == bi,
                                j <= ts@.len(),
                                ts@.map_values(|b: Block| b.0) == goal,
                                goal == targets_of(self.insts_of(bi as int)),
                                cfg.nblocks() == n,
                                cfg.entry_spec() == Block(0),
                                cfg.wf(),
                                forall|b: int|
                                    0 <= b < bi ==> #[trigger] cfg.succs_of(b) == targets_of(
                                        self.insts_of(b),
                                    ),
                                cfg.succs_of(bi as int) == goal.subrange(0, j as int),
                                forall|b: int|
                                    bi < b < n ==> #[trigger] cfg.succs_of(b)
                                        == Seq::<u16>::empty(),
                            decreases ts@.len() - j,
                        {
                            let t = ts[j];
                            proof {
                                assert(goal[j as int] == ts@.map_values(|b: Block| b.0)[j as int]);
                                assert(t.0 == goal[j as int]);
                                assert(t.0 < n);
                            }
                            cfg.add_edge(t, block);
                            proof {
                                assert(cfg.succs_of(bi as int) =~= goal.subrange(0, j + 1));
                            }
                            j += 1;
                        }
                        proof {
                            assert(cfg.succs_of(bi as int) =~= goal);
                        }
                    } else {
                        proof {
                            assert(targets_of(self.insts_of(bi as int)) =~= Seq::<u16>::empty());
                        }
                    }
                },
                None => {
                    return Err(TirError::BlockNotTerminated(block));
                },
            }
            bi += 1;
        }
        self.cfg = Some(cfg);
        Ok(())
    }

    fn invalidate_cfg(&mut self)
        ensures
            final(self).cfg_spec() is None,
            final(self).blocks_view() == old(self).blocks_view(),
            final(self).regs_count_spec() == old(self).regs_count_spec(),
            final(self).name_spec() == old(self).name_spec(),
    {
        self.cfg = None;
    }

    /// The cached control-flow graph; calling this before a successful
    /// `construct_cfg` is a caller error.
    pub fn get_cfg(&self) -> (r: &CFG)
        requires
            self.cfg_spec() is Some,
        ensures
            *r == self.cfg_spec().unwrap(),
    {
        match &self.cfg {
            Some(cfg) => cfg,
            None => unreached(),
        }
    }

    /// How many register ids are in use.
    pub fn get_regs_count(&self) -> (r: usize)
        ensures
            r == self.regs_count_spec(),
    {
        self.regs_count as usize
    }

    /// The entry block: block zero, if the function has any block.
    pub fn get_entry_block(&self) -> (r: Option<Block>)
        ensures
            self.num_blocks() > 0 ==> r == Some(Block(0)),
            self.num_blocks() == 0 ==> r is None,
    {
        if self.blocks.len() > 0 {
            Some(Block::new(0))
        } else {
            None
        }
    }

    /// How many blocks the function has.
    pub fn blocks_count(&self) -> (r: usize)
        ensures
            r == self.num_blocks(),
    {
        self.blocks.len()
    }

    /// Iterates over `(block, data)` pairs in arena order.
    pub fn blocks_iter<'i>(&'i self) -> (r: PrimaryMapIter<'i, Block, BlockData<I>>)
        ensures
            r.map@ == self.blocks_view(),
            r.idx == 0,
    {
        self.blocks.iter()
    }
}

} // verus!
