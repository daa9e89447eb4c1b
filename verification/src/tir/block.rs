use vstd::prelude::*;

use crate::support::slotmap::Key;
use crate::tir::inst::Inst;

verus! {

/// Handle of a basic block inside a function's block arena.
///
/// The handle is a dense index; `u16::MAX` is reserved as the "none"
/// sentinel, so at most `u16::MAX` blocks can exist in one function.
#[derive(Clone, Copy, PartialEq, Eq, Structural, Debug, Hash, PartialOrd, Ord)]
pub struct Block(pub u16);

impl Key for Block {
    open spec fn spec_max() -> usize {
        u16::MAX as usize
    }

    open spec fn index_spec(self) -> usize {
        self.0 as usize
    }

    fn new(v: usize) -> (r: Self) {
        Block(v as u16)
    }

    fn index(&self) -> (r: usize) {
        self.0 as usize
    }

    fn none_val() -> (r: Self) {
        Block(u16::MAX)
    }

    fn is_none(&self) -> (r: bool) {
        self.0 == u16::MAX
    }
}

} // verus!
verus! {

/// An ordered sequence of instructions forming one basic block.
///
/// Once a function is finished, the last instruction of every block must
/// be a terminator, which control-flow graph construction checks.
pub struct BlockData<I: Inst> {
    insts: Vec<I>,
}

impl<I: Inst> View for BlockData<I> {
    type V = Seq<I>;

    closed spec fn view(&self) -> Seq<I> {
        self.insts@
    }
}

impl<I: Inst> BlockData<I> {
    pub fn new() -> (r: Self)
        ensures
            r@ == Seq::<I>::empty(),
    {
        BlockData { insts: Vec::new() }
    }

    /// Appends one instruction at the end of the block.
    pub fn push(&mut self, inst: I)
        ensures
            final(self)@ == old(self)@.push(inst),
    {
        self.insts.push(inst);
    }

    /// The block's terminator: its last instruction, if that instruction
    /// is a branch or a return; `None` otherwise.
    pub fn get_terminator(&self) -> (r: Option<I>)
        ensures
            r == (if self@.len() > 0 && (self@.last().spec_is_branch()
                || self@.last().spec_is_ret()) {
                Some(self@.last())
            } else {
                None::<I>
            }),
    {
        let n = self.insts.len();
        if n == 0 {
            return None;
        }
        let inst = self.insts[n - 1];
        if inst.is_term() {
            Some(inst)
        } else {
            None
        }
    }

    /// The instructions of the block, in order.
    pub fn iter(&self) -> (r: &Vec<I>)
        ensures
            r@ == self@,
    {
        &self.insts
    }

    pub fn len(&self) -> (r: usize)
        ensures
            r == self@.len(),
    {
        self.insts.len()
    }

    /// The instruction at in-block index `i`.
    pub fn get(&self, i: usize) -> (r: &I)
        requires
            i < self@.len(),
        ensures
            *r == self@[i as int],
    {
        &self.insts[i]
    }
}

} // verus!
