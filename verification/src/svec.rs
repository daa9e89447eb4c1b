use vstd::prelude::*;

use crate::tir::block::Block;

verus! {

// Small inline vectors from the smallvec crate back the hot lists of this
// library: bit-set buckets, edge lists and per-instruction register lists.
// Verus cannot read the smallvec type itself, so each instantiation lives
// in a private field of a struct below; an uninterpreted function names the
// items it holds, and small trusted wrappers state how each smallvec call
// acts on that sequence.

/// The items of a `WordList`, in order.
pub uninterp spec fn word_list(v: WordList) -> Seq<u32>;

/// A list of 32-bit words with inline storage for the common small case.
#[verifier::external_body]
pub struct WordList {
    inner: smallvec::SmallVec<[u32; 4]>,
}

impl WordList {
    /// Relies on smallvec::SmallVec::from_elem: builds a vector of `n`
    /// copies of `w`.
    #[verifier::external_body]
    pub fn filled(n: usize, w: u32) -> (r: WordList)
        ensures
            word_list(r) == Seq::<u32>::new(n as nat, |i: int| w),
    {
        WordList { inner: smallvec::SmallVec::from_elem(w, n) }
    }

    /// Relies on smallvec::SmallVec::len: the number of items held.
    #[verifier::external_body]
    pub fn len(&self) -> (r: usize)
        ensures
            r == word_list(*self).len(),
    {
        self.inner.len()
    }

    /// Relies on smallvec's index through its slice view: the item at `i`.
    #[verifier::external_body]
    pub fn get(&self, i: usize) -> (r: u32)
        requires
            i < word_list(*self).len(),
        ensures
            r == word_list(*self)[i as int],
    {
        self.inner[i]
    }

    /// Relies on smallvec's mutable index through its slice view: replaces
    /// the item at `i`.
    #[verifier::external_body]
    pub fn set(&mut self, i: usize, w: u32)
        requires
            i < word_list(*old(self)).len(),
        ensures
            word_list(*final(self)) == word_list(*old(self)).update(i as int, w),
    {
        self.inner[i] = w;
    }

}

/// The items of a `BlockList`, in order, as raw block indices.
pub uninterp spec fn block_list(v: BlockList) -> Seq<u16>;

/// A list of block handles with inline storage for the common small case.
#[verifier::external_body]
pub struct BlockList {
    inner: smallvec::SmallVec<[Block; 2]>,
}

impl BlockList {
    /// Relies on smallvec::SmallVec::new: constructs an empty vector.
    #[verifier::external_body]
    pub fn new() -> (r: BlockList)
        ensures
            block_list(r) == Seq::<u16>::empty(),
    {
        BlockList { inner: smallvec::SmallVec::new() }
    }

    /// Relies on smallvec::SmallVec::push: appends one item at the end.
    #[verifier::external_body]
    pub fn push(&mut self, b: Block)
        ensures
            block_list(*final(self)) == block_list(*old(self)).push(b.0),
    {
        self.inner.push(b)
    }

    /// Relies on smallvec::SmallVec::pop: removes and returns the last
    /// item, or `None` when empty.
    #[verifier::external_body]
    pub fn pop(&mut self) -> (r: Option<Block>)
        ensures
            block_list(*old(self)).len() == 0 ==> r is None && block_list(*final(self))
                == block_list(*old(self)),
            block_list(*old(self)).len() > 0 ==> {
                &&& r matches Some(b) && b.0 == block_list(*old(self)).last()
                &&& block_list(*final(self)) == block_list(*old(self)).drop_last()
            },
    {
        self.inner.pop()
    }

    /// Relies on smallvec::SmallVec::as_slice: exposes the items in order.
    #[verifier::external_body]
    pub fn as_slice(&self) -> (r: &[Block])
        ensures
            r@.map_values(|b: Block| b.0) == block_list(*self),
    {
        self.inner.as_slice()
    }

}

/// The items of a `RegList`, in order.
pub uninterp spec fn reg_list(v: RegList) -> Seq<u32>;

/// A list of register ids with inline storage for the common small case.
#[verifier::external_body]
pub struct RegList {
    inner: smallvec::SmallVec<[u32; 2]>,
}

impl RegList {
    /// Relies on smallvec::SmallVec::new: constructs an empty vector.
    #[verifier::external_body]
    pub fn new() -> (r: RegList)
        ensures
            reg_list(r) == Seq::<u32>::empty(),
    {
        RegList { inner: smallvec::SmallVec::new() }
    }

    /// Relies on smallvec::SmallVec::push: appends one item at the end.
    #[verifier::external_body]
    pub fn push(&mut self, x: u32)
        ensures
            reg_list(*final(self)) == reg_list(*old(self)).push(x),
    {
        self.inner.push(x)
    }

    /// Relies on smallvec::SmallVec::as_slice: exposes the items in order.
    #[verifier::external_body]
    pub fn as_slice(&self) -> (r: &[u32])
        ensures
            r@ == reg_list(*self),
    {
        self.inner.as_slice()
    }
}

} // verus!
