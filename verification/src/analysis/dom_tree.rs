use vstd::prelude::*;

use crate::support::bitset::FixedBitSet;
use crate::support::slotmap::Key;
use crate::support::slotmap::SecondaryMap;
use crate::tir::block::Block;
use crate::tir::cfg::CFG;
use crate::tir::cfg::is_path;
use crate::tir::cfg::reachable;
use vstd::pervasive::unreached;

verus! {

/// Ranks are spaced with a multiplicative stride to leave room for later
/// renumbering; the entry block gets rank `2 * STRIDE`, the `k`-th other
/// visited block rank `(k + 2) * STRIDE`.
pub const STRIDE: u32 = 4;

/// Per-block dominator data: a rank in depth-first visitation order and
/// the immediate dominator, absent for the entry block and for blocks the
/// traversal never reached.
struct DomNode {
    rpo: u32,
    idom: Option<Block>,
}

/// Whether the block index `x` occurs in `s`.
pub open spec fn ids_contain(s: Seq<Block>, x: u16) -> bool {
    exists|k: int| 0 <= k < s.len() && (#[trigger] s[k]).0 == x
}

/// Whether `x` occurs among the first `upto` blocks of `s`.
pub open spec fn ids_within(s: Seq<Block>, upto: int, x: u16) -> bool {
    exists|k: int| 0 <= k < upto && k < s.len() && (#[trigger] s[k]).0 == x
}

/// Whether `x` is a successor of one of the first `upto` recorded blocks.
pub open spec fn from_recorded(cfg: CFG, ord: Seq<Block>, upto: int, x: u16) -> bool {
    exists|k0: int|
        0 <= k0 < upto && k0 < ord.len() && #[trigger] cfg.succs_of(ord[k0].0 as int).contains(x)
}

/// A successor-of-recorded-prefix fact carries over to any extension of
/// the order and any wider prefix bound.
proof fn lemma_from_recorded_extend(
    cfg: CFG,
    ord: Seq<Block>,
    ord2: Seq<Block>,
    upto: int,
    upto2: int,
    x: u16,
)
    requires
        from_recorded(cfg, ord, upto, x),
        upto <= upto2,
        ord2.len() >= ord.len(),
        upto <= ord.len(),
        forall|k: int| 0 <= k < ord.len() ==> ord2[k] == ord[k],
    ensures
        from_recorded(cfg, ord2, upto2, x),
{
    let k0 = choose|k0: int|
        0 <= k0 < upto && k0 < ord.len() && #[trigger] cfg.succs_of(ord[k0].0 as int).contains(x);
    assert(cfg.succs_of(ord2[k0].0 as int).contains(x));
}

/// The rank given to the block at position `k` of the visitation order.
pub open spec fn rank_at(k: int) -> int {
    (k + 2) * (STRIDE as int)
}

/// The dominator tree of a control-flow graph: an immediate-dominator
/// forest over the blocks the depth-first traversal reached, with ranks
/// that strictly decrease along every dominator edge.
pub struct DomTree {
    nodes: SecondaryMap<Block, DomNode>,
    reverse_postorder: Vec<Block>,
}

impl DomTree {
    /// How many blocks the tree covers.
    pub closed spec fn nnodes(self) -> int {
        self.nodes@.len() as int
    }

    /// The rank of block `b`; zero means the traversal never reached it.
    pub closed spec fn rpo_of(self, b: int) -> u32 {
        self.nodes@[b].rpo
    }

    /// The immediate dominator recorded for block `b`.
    pub closed spec fn idom_of(self, b: int) -> Option<Block> {
        self.nodes@[b].idom
    }

    /// The visitation order the ranks were drawn from.
    pub closed spec fn order_spec(self) -> Seq<Block> {
        self.reverse_postorder@
    }

    /// Whether the traversal reached block `b` and gave it a rank.
    pub open spec fn assigned(self, b: int) -> bool {
        self.rpo_of(b) >= 2 * STRIDE
    }

    /// Structural soundness of the dominator forest: the entry block holds
    /// the least rank and no dominator; every other ranked block has a
    /// ranked immediate dominator of strictly smaller rank; unranked
    /// blocks carry nothing.
    pub open spec fn dom_wf(self) -> bool {
        &&& self.nnodes() >= 1
        &&& self.rpo_of(0) == 2 * STRIDE
        &&& self.idom_of(0) is None
        &&& forall|b: int|
            1 <= b < self.nnodes() && #[trigger] self.assigned(b) ==> self.rpo_of(b) >= 3 * STRIDE
                && (self.idom_of(b) matches Some(d) && d.0 < self.nnodes() && self.assigned(
                d.0 as int,
            ) && self.rpo_of(d.0 as int) < self.rpo_of(b))
        &&& forall|b: int|
            0 <= b < self.nnodes() && !(#[trigger] self.assigned(b)) ==> self.rpo_of(b) == 0
                && self.idom_of(b) is None
    }

    /// What `dominates` computes: walk `b` up the recorded immediate
    /// dominators while its rank exceeds `a`'s; `a` dominates `b` exactly
    /// when the walk lands on `a`.
    pub open spec fn dom_reaches(self, a: int, b: int) -> bool
        decreases self.rpo_of(b),
        when self.dom_wf() && 0 <= a < self.nnodes() && 0 <= b < self.nnodes()
        via Self::dom_reaches_decreases
    {
        if self.rpo_of(a) < self.rpo_of(b) {
            match self.idom_of(b) {
                Some(d) => self.dom_reaches(a, d.0 as int),
                None => false,
            }
        } else {
            a == b
        }
    }

    #[via_fn]
    proof fn dom_reaches_decreases(self, a: int, b: int) {
        if self.rpo_of(a) < self.rpo_of(b) {
            if !self.assigned(b) {
                assert(self.rpo_of(b) == 0);
            }
            assert(b != 0 ==> self.assigned(b) ==> (self.idom_of(b) matches Some(d)
                && self.rpo_of(d.0 as int) < self.rpo_of(b)));
        }
    }
}

/// `dt` is a dominator tree built for `cfg`: structurally sound, covering
/// the same blocks, ranking every block reachable from the entry and only
/// those, with the ranks drawn from a depth-first visitation order of the
/// graph itself.
pub open spec fn dom_tree_for(dt: DomTree, cfg: CFG) -> bool {
    &&& dt.dom_wf()
    &&& dt.nnodes() == cfg.nblocks()
    &&& forall|b: u16| #[trigger] reachable(cfg, b) ==> dt.assigned(b as int)
    &&& good_order(cfg, dt.order_spec())
    &&& ranks_match(dt, dt.order_spec(), dt.order_spec().len() as int)
    &&& unranked_outside(dt, dt.order_spec(), dt.order_spec().len() as int)
}

/// The first `upto` blocks of the visitation order carry exactly the
/// stride-spaced rank of their position.
pub open spec fn ranks_match(dt: DomTree, ord: Seq<Block>, upto: int) -> bool {
    forall|m: int|
        0 <= m < upto && m < ord.len() ==> #[trigger] dt.rpo_of(ord[m].0 as int) == rank_at(m)
}

/// A depth-first visitation order of `cfg` from its entry: starts at the
/// entry, stays in range, never repeats a block, gives every later block
/// an earlier predecessor, and is closed under successors.
pub open spec fn good_order(cfg: CFG, ord: Seq<Block>) -> bool {
    &&& 1 <= ord.len() <= cfg.nblocks()
    &&& ord[0].0 == cfg.entry_spec().0
    &&& forall|k: int| 0 <= k < ord.len() ==> (#[trigger] ord[k]).0 < cfg.nblocks()
    &&& forall|k1: int, k2: int|
        0 <= k1 < k2 < ord.len() ==> (#[trigger] ord[k1]).0 != (#[trigger] ord[k2]).0
    &&& forall|k: int|
        1 <= k < ord.len() ==> #[trigger] from_recorded(cfg, ord, k, ord[k].0)
    &&& forall|k: int, x: u16|
        0 <= k < ord.len() && #[trigger] cfg.succs_of(ord[k].0 as int).contains(x) ==> ids_contain(
            ord,
            x,
        )
}

/// Blocks outside the first `upto` entries of the order are unranked.
pub open spec fn unranked_outside(dt: DomTree, ord: Seq<Block>, upto: int) -> bool {
    forall|b: int|
        0 <= b < dt.nnodes() && !ids_within(ord, upto, b as u16) ==> !#[trigger] dt.assigned(b)
}

/// Re-ranking one non-entry block with a sound dominator entry keeps the
/// whole table sound, provided the block either was unranked or keeps its
/// rank.
#[verifier::rlimit(100)]
proof fn lemma_single_update_wf(pre: DomTree, post: DomTree, blk: int, d: Block)
    requires
        pre.dom_wf(),
        1 <= blk < pre.nnodes(),
        post.nnodes() == pre.nnodes(),
        d.0 < pre.nnodes(),
        pre.assigned(d.0 as int),
        d.0 != blk,
        post.idom_of(blk) == Some(d),
        post.rpo_of(blk) >= 3 * STRIDE,
        post.rpo_of(d.0 as int) < post.rpo_of(blk),
        !pre.assigned(blk) || post.rpo_of(blk) == pre.rpo_of(blk),
        forall|b: int|
            0 <= b < pre.nnodes() && b != blk ==> #[trigger] post.rpo_of(b) == pre.rpo_of(b)
                && post.idom_of(b) == pre.idom_of(b),
    ensures
        post.dom_wf(),
{
    let n = pre.nnodes();
    assert(post.rpo_of(0) == pre.rpo_of(0));
    assert(post.idom_of(0) == pre.idom_of(0));
    assert forall|b: int|
        1 <= b < n && #[trigger] post.assigned(b) implies post.rpo_of(b) >= 3 * STRIDE && (
    post.idom_of(b) matches Some(dd) && dd.0 < n && post.assigned(dd.0 as int) && post.rpo_of(
        dd.0 as int,
    ) < post.rpo_of(b)) by {
        if b == blk {
            assert(post.assigned(d.0 as int));
        } else {
            assert(post.rpo_of(b) == pre.rpo_of(b));
            assert(pre.assigned(b));
            let dd = pre.idom_of(b).unwrap();
            if dd.0 == blk {
                assert(pre.assigned(blk));
                assert(post.rpo_of(dd.0 as int) == pre.rpo_of(dd.0 as int));
            } else {
                assert(post.rpo_of(dd.0 as int) == pre.rpo_of(dd.0 as int));
            }
        }
    }
    assert forall|b: int|
        0 <= b < n && !(#[trigger] post.assigned(b)) implies post.rpo_of(b) == 0 && post.idom_of(
        b,
    ) is None by {
        assert(b != blk);
        assert(!pre.assigned(b));
    }
}

/// One rank-pass step keeps the dominator table sound: the block at
/// position `i` of the order got the rank of its position and a ranked
/// dominator of smaller rank; nothing else moved.
#[verifier::rlimit(100)]
proof fn lemma_rank_step(pre: DomTree, post: DomTree, ord: Seq<Block>, i: int, d: Block)
    requires
        forall|k1: int, k2: int|
            0 <= k1 < k2 < ord.len() ==> (#[trigger] ord[k1]).0 != (#[trigger] ord[k2]).0,
        forall|k: int| 0 <= k < ord.len() ==> (#[trigger] ord[k]).0 < pre.nnodes(),
        ord.len() > 0,
        ord[0].0 == 0,
        0 < i < ord.len(),
        pre.dom_wf(),
        ranks_match(pre, ord, i),
        unranked_outside(pre, ord, i),
        d.0 < pre.nnodes(),
        pre.assigned(d.0 as int),
        pre.rpo_of(d.0 as int) < rank_at(i),
        post.nnodes() == pre.nnodes(),
        post.rpo_of(ord[i].0 as int) == rank_at(i),
        post.idom_of(ord[i].0 as int) == Some(d),
        forall|b: int|
            0 <= b < pre.nnodes() && b != ord[i].0 ==> #[trigger] post.rpo_of(b) == pre.rpo_of(b)
                && post.idom_of(b) == pre.idom_of(b),
    ensures
        post.dom_wf(),
        ranks_match(post, ord, i + 1),
        unranked_outside(post, ord, i + 1),
{
    let n = pre.nnodes();
    let blk = ord[i].0;
    assert(blk != 0) by {
        assert(ord[0].0 == 0);
    }
    assert(d.0 != blk) by {
        assert(post.rpo_of(d.0 as int) == pre.rpo_of(d.0 as int));
    }
    assert(rank_at(i) >= 3 * STRIDE);
    assert(!pre.assigned(blk as int)) by {
        assert(!ids_within(ord, i, blk)) by {
            if ids_within(ord, i, blk) {
                let kk = choose|kk: int|
                    0 <= kk < i && kk < ord.len() && (#[trigger] ord[kk]).0 == blk;
            }
        }
    }
    assert forall|b: int|
        0 <= b < pre.nnodes() && b != blk as int implies #[trigger] post.rpo_of(b) == pre.rpo_of(
        b,
    ) && post.idom_of(b) == pre.idom_of(b) by {
        assert(b != ord[i].0);
        assert(post.rpo_of(b) == pre.rpo_of(b));
        assert(post.idom_of(b) =~= pre.idom_of(b));
    }
    lemma_single_update_wf(pre, post, blk as int, d);
    assert forall|m: int|
        0 <= m < i + 1 && m < ord.len() implies #[trigger] post.rpo_of(ord[m].0 as int) == rank_at(
        m,
    ) by {
        if m < i {
            assert(ord[m].0 != blk);
            assert(pre.rpo_of(ord[m].0 as int) == rank_at(m));
        }
    }
    assert forall|b: int|
        0 <= b < n && !ids_within(ord, i + 1, b as u16) implies !#[trigger] post.assigned(b) by {
        if b != blk {
            assert(!ids_within(ord, i, b as u16)) by {
                if ids_within(ord, i, b as u16) {
                    let kk = choose|kk: int|
                        0 <= kk < i && kk < ord.len() && (#[trigger] ord[kk]).0 == b as u16;
                }
            }
            assert(!pre.assigned(b));
        } else {
            assert(ids_within(ord, i + 1, b as u16)) by {
                assert(ord[i].0 == b as u16);
            }
        }
    }
}

/// The dominator table is finished for the order `ord`: structurally
/// sound, and every block of the order is ranked.
pub open spec fn domtree_done(dt: DomTree, ord: Seq<Block>) -> bool {
    &&& dt.dom_wf()
    &&& dt.order_spec() == ord
    &&& forall|b: u16| ids_contain(ord, b) ==> dt.assigned(b as int)
}

impl DomTree {
    /// Builds the dominator tree of `cfg`: ranks the blocks in depth-first
    /// visitation order, then iterates the immediate-dominator fixed point
    /// until it is stable.
    pub fn build(cfg: &CFG) -> (r: Self)
        requires
            cfg.wf(),
            cfg.entry_spec() == Block(0),
            1 <= cfg.nblocks() <= u16::MAX,
        ensures
            dom_tree_for(r, *cfg),
    {
        let n = cfg.blocks_count();
        let mut nodes_vec: Vec<DomNode> = Vec::new();
        let mut i: usize = 0;
        while i < n
            invariant
                i <= n,
                nodes_vec@.len() == i,
                forall|b: int|
                    0 <= b < i ==> (#[trigger] nodes_vec@[b]).rpo == 0 && nodes_vec@[b].idom
                        is None,
            decreases n - i,
        {
            nodes_vec.push(DomNode { rpo: 0, idom: None });
            i += 1;
        }
        let mut res = DomTree {
            nodes: SecondaryMap::from_vec(nodes_vec),
            reverse_postorder: Vec::new(),
        };
        res.compute(cfg);
        res
    }

    fn compute(&mut self, cfg: &CFG)
        requires
            cfg.wf(),
            cfg.entry_spec() == Block(0),
            1 <= cfg.nblocks() <= u16::MAX,
            old(self).nnodes() == cfg.nblocks(),
            forall|b: int| 0 <= b < old(self).nnodes() ==> #[trigger] old(self).rpo_of(b) == 0,
            forall|b: int| 0 <= b < old(self).nnodes() ==> #[trigger] old(self).idom_of(b) is None,
        ensures
            dom_tree_for(*final(self), *cfg),
    {
        self.compute_postorder(cfg);
        proof {
            assert forall|b: int| 0 <= b < self.nnodes() implies #[trigger] self.rpo_of(b)
                == 0 by {
                assert(old(self).rpo_of(b) == 0);
            }
            assert forall|b: int| 0 <= b < self.nnodes() implies #[trigger] self.idom_of(b)
                is None by {
                assert(old(self).idom_of(b) is None);
            }
        }
        self.compute_domtree(cfg);
        proof {
            let ord = self.order_spec();
            assert forall|b: u16| #[trigger] reachable(*cfg, b) implies self.assigned(b as int) by {
                let p = choose|p: Seq<u16>| is_path(*cfg, p) && p.last() == b;
                lemma_path_in_order(*cfg, ord, p);
            }
            assert(dom_tree_for(*self, *cfg));
        }
    }

    /// Records the blocks reachable from the entry in depth-first
    /// visitation order, using an explicit stack.
    fn compute_postorder(&mut self, cfg: &CFG)
        requires
            cfg.wf(),
            cfg.entry_spec() == Block(0),
            1 <= cfg.nblocks() <= u16::MAX,
        ensures
            final(self).nodes@ == old(self).nodes@,
            good_order(*cfg, final(self).order_spec()),
    {
        let order = depth_first_order(cfg);
        self.reverse_postorder = order;
    }

    /// Assigns ranks in visitation order, then recomputes every block's
    /// immediate dominator until a fixed point is reached.
    #[verifier::rlimit(100)]
    fn compute_domtree(&mut self, cfg: &CFG)
        requires
            cfg.wf(),
            cfg.entry_spec() == Block(0),
            1 <= cfg.nblocks() <= u16::MAX,
            old(self).nnodes() == cfg.nblocks(),
            good_order(*cfg, old(self).order_spec()),
            forall|b: int| 0 <= b < old(self).nnodes() ==> #[trigger] old(self).rpo_of(b) == 0,
            forall|b: int| 0 <= b < old(self).nnodes() ==> #[trigger] old(self).idom_of(b) is None,
        ensures
            final(self).nnodes() == old(self).nnodes(),
            domtree_done(*final(self), old(self).order_spec()),
            ranks_match(*final(self), old(self).order_spec(), old(self).order_spec().len() as int),
            unranked_outside(
                *final(self),
                old(self).order_spec(),
                old(self).order_spec().len() as int,
            ),
    {
        self.rank_pass(cfg);
        let ghost ranked = *self;
        self.idom_pass(cfg);
        proof {
            let ord = self.order_spec();
            assert forall|b: u16| ids_contain(ord, b) implies self.assigned(b as int) by {
                let m = choose|m: int| 0 <= m < ord.len() && (#[trigger] ord[m]).0 == b;
                assert(self.rpo_of(ord[m].0 as int) == rank_at(m));
            }
            assert(domtree_done(*self, ord));
            assert forall|b: int|
                0 <= b < self.nnodes() && !ids_within(ord, ord.len() as int, b as u16) implies !(
            #[trigger] self.assigned(b)) by {
                assert(self.rpo_of(b) == ranked.rpo_of(b));
                assert(!ranked.assigned(b));
            }
        }
    }

    /// Gives each visited block its stride-spaced rank and a first
    /// immediate dominator taken from its already ranked predecessors.
    #[verifier::rlimit(100)]
    #[verifier::spinoff_prover]
    #[verifier::loop_isolation(false)]
    fn rank_pass(&mut self, cfg: &CFG)
        requires
            cfg.wf(),
            cfg.entry_spec() == Block(0),
            1 <= cfg.nblocks() <= u16::MAX,
            old(self).nnodes() == cfg.nblocks(),
            good_order(*cfg, old(self).order_spec()),
            forall|b: int| 0 <= b < old(self).nnodes() ==> #[trigger] old(self).rpo_of(b) == 0,
            forall|b: int| 0 <= b < old(self).nnodes() ==> #[trigger] old(self).idom_of(b) is None,
        ensures
            final(self).nnodes() == old(self).nnodes(),
            final(self).order_spec() == old(self).order_spec(),
            final(self).dom_wf(),
            ranks_match(*final(self), old(self).order_spec(), old(self).order_spec().len() as int),
            unranked_outside(
                *final(self),
                old(self).order_spec(),
                old(self).order_spec().len() as int,
            ),
    {
        let len = self.reverse_postorder.len();
        let ghost ord = self.reverse_postorder@;
        let ghost n = self.nnodes();
        let entry_block = self.reverse_postorder[0];
        let ghost pre0 = *self;
        self.nodes.set(entry_block, DomNode { rpo: 2 * STRIDE, idom: None });
        proof {
            assert(entry_block.0 == 0);
            assert forall|b: int|
                0 <= b < n && b != 0 implies #[trigger] self.rpo_of(b) == pre0.rpo_of(b)
                && self.idom_of(b) == pre0.idom_of(b) by {}
            assert forall|b: int|
                0 <= b < n && b != 0 implies !(#[trigger] self.assigned(b)) && self.rpo_of(b) == 0
                && self.idom_of(b) is None by {
                assert(old(self).rpo_of(b) == 0);
                assert(old(self).idom_of(b) is None);
            }
            assert(self.dom_wf());
            assert(ranks_match(*self, ord, 1)) by {
                assert(self.rpo_of(ord[0].0 as int) == rank_at(0));
            }
            assert(unranked_outside(*self, ord, 1)) by {
                assert forall|b: int|
                    0 <= b < n && !ids_within(ord, 1, b as u16) implies !#[trigger] self.assigned(
                    b,
                ) by {
                    if b == 0 {
                        assert(ord[0].0 == 0);
                        assert(ids_within(ord, 1, b as u16));
                    }
                }
            }
        }
        let mut i: usize = 1;
        while i < len
            invariant
                n == self.nnodes(),
                ord == self.reverse_postorder@,
                1 <= i <= len,
                self.dom_wf(),
                ranks_match(*self, ord, i as int),
                unranked_outside(*self, ord, i as int),
            decreases len - i,
        {
            let block = self.reverse_postorder[i];
            proof {
                assert(from_recorded(*cfg, ord, i as int, ord[i as int].0));
                let k0 = choose|k0: int|
                    0 <= k0 < i as int && k0 < ord.len() && #[trigger] cfg.succs_of(
                        ord[k0].0 as int,
                    ).contains(ord[i as int].0);
                assert(cfg.preds_of(block.0 as int).contains(ord[k0].0));
                assert(self.rpo_of(ord[k0].0 as int) == rank_at(k0));
                assert(self.assigned(ord[k0].0 as int));
            }
            let idom_opt = self.compute_idom(block, cfg);
            let d = match idom_opt {
                Some(d) => d,
                None => unreached(),
            };
            let rank = (i as u32 + 2) * STRIDE;
            let ghost pre = *self;
            proof {
                assert(from_recorded(*cfg, ord, i as int, ord[i as int].0));
                let k0 = choose|k0: int|
                    0 <= k0 < i as int && k0 < ord.len() && #[trigger] cfg.succs_of(
                        ord[k0].0 as int,
                    ).contains(ord[i as int].0);
                assert(cfg.preds_of(block.0 as int).contains(ord[k0].0));
                assert(self.rpo_of(ord[k0].0 as int) == rank_at(k0));
                assert(self.assigned(ord[k0].0 as int));
                assert(self.rpo_of(d.0 as int) <= self.rpo_of(ord[k0].0 as int));
                assert(rank == rank_at(i as int));
                assert(rank_at(k0) < rank_at(i as int));
            }
            self.nodes.set(block, DomNode { rpo: rank, idom: Some(d) });
            proof {
                assert forall|b: int|
                    0 <= b < n && b != block.0 implies #[trigger] self.rpo_of(b) == pre.rpo_of(b)
                    && self.idom_of(b) == pre.idom_of(b) by {}
                lemma_rank_step(pre, *self, ord, i as int, d);
            }
            i += 1;
        }
    }

    /// Recomputes every ranked block's immediate dominator in visitation
    /// order until a whole pass changes nothing.
    #[verifier::rlimit(100)]
    #[verifier::spinoff_prover]
    #[verifier::loop_isolation(false)]
    fn idom_pass(&mut self, cfg: &CFG)
        requires
            cfg.wf(),
            cfg.entry_spec() == Block(0),
            1 <= cfg.nblocks() <= u16::MAX,
            old(self).nnodes() == cfg.nblocks(),
            good_order(*cfg, old(self).order_spec()),
            old(self).dom_wf(),
            ranks_match(*old(self), old(self).order_spec(), old(self).order_spec().len() as int),
        ensures
            final(self).nnodes() == old(self).nnodes(),
            final(self).order_spec() == old(self).order_spec(),
            final(self).dom_wf(),
            ranks_match(*final(self), old(self).order_spec(), old(self).order_spec().len() as int),
            forall|b: int|
                0 <= b < old(self).nnodes() ==> #[trigger] final(self).rpo_of(b) == old(
                    self,
                ).rpo_of(b),
    {
        let len = self.reverse_postorder.len();
        let ghost ord = self.reverse_postorder@;
        let ghost n = self.nnodes();
        proof {
            assert(len * len <= 0xFFFF * 0xFFFF) by (nonlinear_arith)
                requires
                    len <= 0xFFFF,
            ;
        }
        let limit = len * len + 2;
        let mut rounds: usize = 0;
        let mut changed = true;
        while changed && rounds < limit
            invariant
                rounds <= limit,
                n == self.nnodes(),
                ord == self.reverse_postorder@,
                self.dom_wf(),
                ranks_match(*self, ord, len as int),
                forall|b: int|
                    0 <= b < n ==> #[trigger] self.rpo_of(b) == old(self).rpo_of(b),
            decreases limit - rounds,
        {
            rounds += 1;
            changed = false;
            let mut k: usize = 1;
            while k < len
                invariant
                    n == self.nnodes(),
                    ord == self.reverse_postorder@,
                    1 <= k <= len,
                    self.dom_wf(),
                    ranks_match(*self, ord, len as int),
                    forall|b: int|
                        0 <= b < n ==> #[trigger] self.rpo_of(b) == old(self).rpo_of(b),
                decreases len - k,
            {
                let block = self.reverse_postorder[k];
                proof {
                    assert(from_recorded(*cfg, ord, k as int, ord[k as int].0));
                    let k0 = choose|k0: int|
                        0 <= k0 < k as int && k0 < ord.len() && #[trigger] cfg.succs_of(
                            ord[k0].0 as int,
                        ).contains(ord[k as int].0);
                    assert(cfg.preds_of(block.0 as int).contains(ord[k0].0));
                    assert(self.rpo_of(ord[k0].0 as int) == rank_at(k0));
                    assert(self.assigned(ord[k0].0 as int));
                }
                let idom_opt = self.compute_idom(block, cfg);
                let new_d = match idom_opt {
                    Some(d) => d,
                    None => unreached(),
                };
                let rank = self.nodes.get(block).rpo;
                let same = match &self.nodes.get(block).idom {
                    Some(c) => c.0 == new_d.0,
                    None => false,
                };
                if !same {
                    let ghost pre = *self;
                    proof {
                        let k0 = choose|k0: int|
                            0 <= k0 < k && #[trigger] cfg.succs_of(ord[k0].0 as int).contains(
                                ord[k as int].0,
                            );
                        assert(cfg.preds_of(block.0 as int).contains(ord[k0].0));
                        assert(self.rpo_of(ord[k0].0 as int) == rank_at(k0));
                        assert(self.assigned(ord[k0].0 as int));
                        assert(self.rpo_of(new_d.0 as int) <= self.rpo_of(ord[k0].0 as int));
                        assert(self.rpo_of(ord[k as int].0 as int) == rank_at(k as int));
                        assert(rank == rank_at(k as int));
                        assert(rank_at(k0) < rank_at(k as int));
                        assert(pre.rpo_of(new_d.0 as int) < rank);
                        assert(new_d.0 != block.0);
                        assert(block.0 != 0) by {
                            assert(ord[0].0 == 0);
                        }
                        assert(self.assigned(block.0 as int)) by {
                            assert(ids_within(ord, len as int, ord[k as int].0));
                            assert(self.rpo_of(ord[k as int].0 as int) == rank_at(k as int));
                        }
                    }
                    self.nodes.set(block, DomNode { rpo: rank, idom: Some(new_d) });
                    proof {
                        assert forall|b: int|
                            0 <= b < n && b != block.0 implies #[trigger] self.rpo_of(b)
                            == pre.rpo_of(b) && self.idom_of(b) == pre.idom_of(b) by {}
                        assert(self.rpo_of(block.0 as int) == rank && self.idom_of(block.0 as int)
                            == Some(new_d));
                        assert forall|b: int|
                            0 <= b < n implies #[trigger] self.rpo_of(b) == old(self).rpo_of(
                            b,
                        ) by {
                            if b != block.0 as int {
                                assert(self.rpo_of(b) == pre.rpo_of(b));
                            } else {
                                assert(rank == pre.rpo_of(block.0 as int));
                            }
                        }
                        assert forall|b: int|
                            1 <= b < n && #[trigger] self.assigned(b) implies self.rpo_of(b) >= 3
                            * STRIDE && (self.idom_of(b) matches Some(dd) && dd.0 < n
                            && self.assigned(dd.0 as int) && self.rpo_of(dd.0 as int)
                            < self.rpo_of(b)) by {
                            if b == block.0 {
                                assert(self.assigned(new_d.0 as int));
                            } else {
                                assert(pre.assigned(b) == self.assigned(b));
                                let dd = pre.idom_of(b).unwrap();
                                if pre.assigned(b) {
                                    assert(pre.rpo_of(dd.0 as int) < pre.rpo_of(b));
                                    if dd.0 == block.0 {
                                        assert(self.rpo_of(dd.0 as int) == rank);
                                        assert(pre.rpo_of(block.0 as int) == rank);
                                    } else {
                                        assert(self.rpo_of(dd.0 as int) == pre.rpo_of(
                                            dd.0 as int,
                                        ));
                                    }
                                }
                            }
                        }
                        assert forall|b: int|
                            0 <= b < n && !(#[trigger] self.assigned(b)) implies self.rpo_of(b)
                            == 0 && self.idom_of(b) is None by {
                            assert(b != block.0);
                            assert(!pre.assigned(b));
                        }
                        assert(self.dom_wf());
                        assert(ranks_match(*self, ord, len as int)) by {
                            assert forall|m: int|
                                0 <= m < len && m < ord.len() implies #[trigger] self.rpo_of(
                                ord[m].0 as int,
                            ) == rank_at(m) by {
                                if ord[m].0 != block.0 {
                                    assert(pre.rpo_of(ord[m].0 as int) == rank_at(m));
                                }
                            }
                        }
                    }
                    changed = true;
                }
                k += 1;
            }
        }
    }

    /// The common dominator of `a` and `b`: walk the block of higher rank
    /// up its immediate dominators until the two meet.
    fn common_dominator(&self, a: Block, b: Block) -> (r: Block)
        requires
            self.dom_wf(),
            a.0 < self.nnodes(),
            b.0 < self.nnodes(),
            self.assigned(a.0 as int),
            self.assigned(b.0 as int),
        ensures
            r.0 < self.nnodes(),
            self.assigned(r.0 as int),
            self.rpo_of(r.0 as int) <= self.rpo_of(a.0 as int),
            self.rpo_of(r.0 as int) <= self.rpo_of(b.0 as int),
    {
        let mut x = a;
        let mut y = b;
        loop
            invariant
                self.dom_wf(),
                x.0 < self.nnodes(),
                y.0 < self.nnodes(),
                a.0 < self.nnodes(),
                b.0 < self.nnodes(),
                self.assigned(x.0 as int),
                self.assigned(y.0 as int),
                self.assigned(a.0 as int),
                self.assigned(b.0 as int),
                self.rpo_of(x.0 as int) <= self.rpo_of(a.0 as int),
                self.rpo_of(y.0 as int) <= self.rpo_of(b.0 as int),
            decreases self.rpo_of(x.0 as int) + self.rpo_of(y.0 as int),
        {
            let x_rpo = self.nodes.get(x).rpo;
            let y_rpo = self.nodes.get(y).rpo;
            if x_rpo < y_rpo {
                proof {
                    assert(y.0 != 0) by {
                        assert(self.rpo_of(y.0 as int) > self.rpo_of(x.0 as int) >= 2 * STRIDE);
                    }
                }
                match &self.nodes.get(y).idom {
                    Some(idom) => {
                        y = *idom;
                    },
                    None => {
                        return unreached();
                    },
                }
            } else if x_rpo > y_rpo {
                proof {
                    assert(x.0 != 0) by {
                        assert(self.rpo_of(x.0 as int) > self.rpo_of(y.0 as int) >= 2 * STRIDE);
                    }
                }
                match &self.nodes.get(x).idom {
                    Some(idom) => {
                        x = *idom;
                    },
                    None => {
                        return unreached();
                    },
                }
            } else {
                return x;
            }
        }
    }

    /// The immediate dominator of `block` from its currently ranked
    /// predecessors: their iterated common dominator, or `None` when no
    /// predecessor is ranked yet.
    fn compute_idom(&self, block: Block, cfg: &CFG) -> (r: Option<Block>)
        requires
            self.dom_wf(),
            cfg.wf(),
            self.nnodes() == cfg.nblocks(),
            block.0 < self.nnodes(),
        ensures
            r matches Some(d) ==> d.0 < self.nnodes() && self.assigned(d.0 as int) && (forall|
                p: u16,
            |
                cfg.preds_of(block.0 as int).contains(p) && self.assigned(p as int)
                    ==> self.rpo_of(d.0 as int) <= #[trigger] self.rpo_of(p as int)),
            r is None ==> forall|p: u16|
                cfg.preds_of(block.0 as int).contains(p) ==> !#[trigger] self.assigned(p as int),
    {
        let preds = cfg.preds(block);
        let ghost pseq = cfg.preds_of(block.0 as int);
        let mut acc: Option<Block> = None;
        let mut j: usize = 0;
        while j < preds.len()
            invariant
                self.dom_wf(),
                cfg.wf(),
                self.nnodes() == cfg.nblocks(),
                block.0 < self.nnodes(),
                preds@.map_values(|b: Block| b.0) == pseq,
                pseq == cfg.preds_of(block.0 as int),
                j <= preds@.len(),
                acc matches Some(d) ==> d.0 < self.nnodes() && self.assigned(d.0 as int) && (forall|
                    m: int,
                |
                    0 <= m < j && self.assigned(pseq[m] as int) ==> self.rpo_of(d.0 as int)
                        <= #[trigger] self.rpo_of(pseq[m] as int)),
                acc is None ==> forall|m: int|
                    0 <= m < j ==> !#[trigger] self.assigned(pseq[m] as int),
            decreases preds@.len() - j,
        {
            let p = preds[j];
            proof {
                assert(p.0 == preds@.map_values(|b: Block| b.0)[j as int]);
                assert(cfg.preds_of(block.0 as int)[j as int] < cfg.nblocks());
            }
            if self.nodes.get(p).rpo > 1 {
                proof {
                    if !self.assigned(p.0 as int) {
                        assert(self.rpo_of(p.0 as int) == 0);
                    }
                }
                acc = match acc {
                    None => Some(p),
                    Some(cur) => Some(self.common_dominator(cur, p)),
                };
            } else {
                proof {
                    if self.assigned(p.0 as int) {
                        assert(self.rpo_of(p.0 as int) >= 2 * STRIDE);
                    }
                }
            }
            j += 1;
        }
        proof {
            match acc {
                Some(d) => {
                    assert forall|p: u16|
                        pseq.contains(p) && self.assigned(p as int) implies self.rpo_of(d.0 as int)
                        <= self.rpo_of(p as int) by {
                        let m = choose|m: int| 0 <= m < pseq.len() && pseq[m] == p;
                    }
                },
                None => {
                    assert forall|p: u16| pseq.contains(p) implies !self.assigned(p as int) by {
                        let m = choose|m: int| 0 <= m < pseq.len() && pseq[m] == p;
                    }
                },
            }
        }
        acc
    }

    /// Whether `a` dominates `b`: every path from the entry to `b` passes
    /// through `a`, as recorded by the immediate-dominator forest.
    pub fn dominates(&self, a: Block, b: Block) -> (r: bool)
        requires
            self.dom_wf(),
            a.0 < self.nnodes(),
            b.0 < self.nnodes(),
        ensures
            r == self.dom_reaches(a.0 as int, b.0 as int),
    {
        if a.0 == b.0 {
            return true;
        }
        let a_rpo = self.nodes.get(a).rpo;
        let mut cur = b;
        loop
            invariant
                self.dom_wf(),
                a.0 < self.nnodes(),
                b.0 < self.nnodes(),
                cur.0 < self.nnodes(),
                a_rpo == self.rpo_of(a.0 as int),
                self.dom_reaches(a.0 as int, b.0 as int) == self.dom_reaches(
                    a.0 as int,
                    cur.0 as int,
                ),
            decreases self.rpo_of(cur.0 as int),
        {
            let ghost prev = cur;
            if a_rpo < self.nodes.get(cur).rpo {
                proof {
                    if !self.assigned(cur.0 as int) {
                        assert(self.rpo_of(cur.0 as int) == 0);
                    }
                }
                match &self.nodes.get(cur).idom {
                    Some(idom) => {
                        cur = *idom;
                        proof {
                            assert(self.dom_reaches(a.0 as int, prev.0 as int)
                                == self.dom_reaches(a.0 as int, cur.0 as int));
                        }
                    },
                    None => {
                        assert(!self.dom_reaches(a.0 as int, cur.0 as int));
                        return false;
                    },
                }
            } else {
                assert(self.dom_reaches(a.0 as int, cur.0 as int) == (a.0 == cur.0));
                return a.0 == cur.0;
            }
        }
    }
}

/// Every block a path from the entry reaches appears in a successor-closed
/// order that contains the entry.
pub proof fn lemma_path_in_order(cfg: CFG, ord: Seq<Block>, p: Seq<u16>)
    requires
        good_order(cfg, ord),
        is_path(cfg, p),
    ensures
        ids_contain(ord, p.last()),
    decreases p.len(),
{
    if p.len() == 1 {
        assert(p.last() == cfg.entry_spec().0);
        assert(ord[0].0 == p.last());
    } else {
        let q = p.drop_last();
        assert(is_path(cfg, q)) by {
            assert(q[0] == p[0]);
            assert forall|k: int| 0 <= k < q.len() implies #[trigger] q[k] < cfg.nblocks() by {
                assert(p[k] < cfg.nblocks());
            }
            assert forall|k: int|
                0 < k < q.len() implies #[trigger] cfg.succs_of(q[k - 1] as int).contains(
                q[k],
            ) by {
                assert(cfg.succs_of(p[k - 1] as int).contains(p[k]));
            }
        }
        lemma_path_in_order(cfg, ord, q);
        let k = choose|k: int| 0 <= k < ord.len() && (#[trigger] ord[k]).0 == q.last();
        assert(p[p.len() - 2] == q.last());
        assert(cfg.succs_of(ord[k].0 as int).contains(p[p.len() - 1]));
    }
}

/// The running state of the depth-first traversal: the visited bits
/// mirror the recorded order, the order is a duplicate-free in-range
/// sequence that starts at the entry, every later entry has an earlier
/// predecessor, and every stack entry is the entry block or a successor
/// of something already recorded.
pub open spec fn dfs_core(
    cfg: CFG,
    visited: FixedBitSet,
    stack: Seq<Block>,
    order: Seq<Block>,
    n: int,
) -> bool {
    &&& visited.wf()
    &&& visited.capacity_spec() >= n
    &&& forall|i: int| #[trigger] visited.has_spec(i) ==> 0 <= i < n
    &&& forall|i: int|
        0 <= i < n ==> (#[trigger] visited.has_spec(i) <==> ids_contain(order, i as u16))
    &&& order.len() == visited.count_below(visited.capacity_spec())
    &&& order.len() <= n
    &&& forall|k: int| 0 <= k < order.len() ==> (#[trigger] order[k]).0 < n
    &&& forall|k1: int, k2: int|
        0 <= k1 < k2 < order.len() ==> (#[trigger] order[k1]).0 != (#[trigger] order[k2]).0
    &&& order.len() > 0 ==> order[0].0 == 0
    &&& order.len() == 0 ==> stack == seq![Block(0)]
    &&& forall|k: int|
        1 <= k < order.len() ==> #[trigger] from_recorded(cfg, order, k, order[k].0)
    &&& forall|s: int| 0 <= s < stack.len() ==> (#[trigger] stack[s]).0 < n
    &&& forall|s: int|
        0 <= s < stack.len() ==> (#[trigger] stack[s]).0 == 0 || from_recorded(
            cfg,
            order,
            order.len() as int,
            (#[trigger] stack[s]).0,
        )
}

/// The first `upto` recorded blocks have every successor either recorded
/// or still waiting on the stack.
pub open spec fn dfs_closed(cfg: CFG, order: Seq<Block>, stack: Seq<Block>, upto: int) -> bool {
    forall|k: int, x: u16|
        0 <= k < upto && k < order.len() && #[trigger] cfg.succs_of(order[k].0 as int).contains(x)
            ==> ids_contain(order, x) || ids_contain(stack, x)
}

/// Popping an already-visited block keeps the traversal state.
#[verifier::rlimit(100)]
proof fn lemma_dfs_skip(cfg: CFG, v: FixedBitSet, stack: Seq<Block>, order: Seq<Block>, n: int)
    requires
        1 <= n <= u16::MAX,
        dfs_core(cfg, v, stack, order, n),
        dfs_closed(cfg, order, stack, order.len() as int),
        stack.len() > 0,
        v.has_spec(stack.last().0 as int),
    ensures
        dfs_core(cfg, v, stack.drop_last(), order, n),
        dfs_closed(cfg, order, stack.drop_last(), order.len() as int),
{
    let post = stack.drop_last();
    let block = stack.last();
    assert(ids_contain(order, block.0));
    assert(order.len() > 0);
    assert forall|s: int| 0 <= s < post.len() implies (#[trigger] post[s]).0 < n by {
        assert(stack[s].0 < n);
    }
    assert forall|s: int|
        0 <= s < post.len() implies (#[trigger] post[s]).0 == 0 || from_recorded(
        cfg,
        order,
        order.len() as int,
        post[s].0,
    ) by {
        assert(post[s] == stack[s]);
    }
    assert forall|k: int, x: u16|
        0 <= k < order.len() && #[trigger] cfg.succs_of(order[k].0 as int).contains(
            x,
        ) implies ids_contain(order, x) || ids_contain(post, x) by {
        if !ids_contain(order, x) {
            assert(ids_contain(stack, x));
            let si = choose|si: int| 0 <= si < stack.len() && (#[trigger] stack[si]).0 == x;
            if si < stack.len() - 1 {
                assert(post[si].0 == x);
            } else {
                assert(x == block.0);
            }
        }
    }
}

/// Recording a newly visited block keeps the traversal state; its own
/// successors are not yet accounted for.
#[verifier::rlimit(100)]
proof fn lemma_dfs_visit(
    cfg: CFG,
    pre_v: FixedBitSet,
    post_v: FixedBitSet,
    stack: Seq<Block>,
    order: Seq<Block>,
    n: int,
)
    requires
        1 <= n <= u16::MAX,
        dfs_core(cfg, pre_v, stack, order, n),
        dfs_closed(cfg, order, stack, order.len() as int),
        stack.len() > 0,
        stack.last().0 < n,
        !pre_v.has_spec(stack.last().0 as int),
        post_v.nwords() == pre_v.nwords(),
        forall|i: int|
            #[trigger] post_v.has_spec(i) == (i == stack.last().0 || pre_v.has_spec(i)),
    ensures
        dfs_core(cfg, post_v, stack.drop_last(), order.push(stack.last()), n),
        dfs_closed(cfg, order.push(stack.last()), stack.drop_last(), order.len() as int),
{
    let block = stack.last();
    let post_s = stack.drop_last();
    let post_o = order.push(block);
    crate::support::bitset::lemma_count_add_one(
        pre_v,
        post_v,
        block.0 as int,
        pre_v.capacity_spec(),
    );
    assert(post_o.len() == post_v.count_below(post_v.capacity_spec()));
    crate::support::bitset::lemma_count_high_zero(post_v, n, post_v.capacity_spec());
    post_v.lemma_count_bounded(0, n);
    assert(post_v.count_below(n) <= n);
    assert(post_o.len() <= n);
    assert(ids_contain(post_o, block.0)) by {
        assert(post_o[order.len() as int].0 == block.0);
    }
    assert forall|x: u16| ids_contain(order, x) implies ids_contain(post_o, x) by {
        let k = choose|k: int| 0 <= k < order.len() && (#[trigger] order[k]).0 == x;
        assert(post_o[k].0 == x);
    }
    assert forall|i: int|
        0 <= i < n implies (#[trigger] post_v.has_spec(i) <==> ids_contain(post_o, i as u16)) by {
        if i != block.0 {
            if ids_contain(post_o, i as u16) {
                let k = choose|k: int| 0 <= k < post_o.len() && (#[trigger] post_o[k]).0 == i as u16;
                assert(k < order.len()) by {
                    if k == order.len() {
                        assert(post_o[k] == block);
                    }
                }
                assert(order[k].0 == i as u16);
            }
        }
    }
    assert(!ids_contain(order, block.0));
    if block.0 != 0 {
        assert(order.len() > 0) by {
            if order.len() == 0 {
                assert(stack == seq![Block(0)]);
                assert(stack.last() == Block(0));
            }
        }
        assert(from_recorded(cfg, order, order.len() as int, block.0)) by {
            assert(stack[stack.len() - 1].0 == block.0);
        }
    } else {
        assert(order.len() == 0) by {
            if order.len() > 0 {
                assert(order[0].0 == 0);
                assert(ids_contain(order, 0u16));
            }
        }
    }
    assert forall|k: int|
        1 <= k < post_o.len() implies #[trigger] from_recorded(cfg, post_o, k, post_o[k].0) by {
        if k < order.len() {
            assert(order[k] == post_o[k]);
            assert(from_recorded(cfg, order, k, order[k].0));
            lemma_from_recorded_extend(cfg, order, post_o, k, k, order[k].0);
        } else {
            assert(post_o[k] == block);
            lemma_from_recorded_extend(
                cfg,
                order,
                post_o,
                order.len() as int,
                k,
                block.0,
            );
        }
    }
    assert forall|s: int| 0 <= s < post_s.len() implies (#[trigger] post_s[s]).0 < n by {
        assert(stack[s].0 < n);
    }
    assert forall|s: int|
        0 <= s < post_s.len() implies (#[trigger] post_s[s]).0 == 0 || from_recorded(
        cfg,
        post_o,
        post_o.len() as int,
        post_s[s].0,
    ) by {
        assert(post_s[s] == stack[s]);
        if stack[s].0 != 0 {
            assert(from_recorded(cfg, order, order.len() as int, stack[s].0));
            lemma_from_recorded_extend(
                cfg,
                order,
                post_o,
                order.len() as int,
                post_o.len() as int,
                stack[s].0,
            );
        }
    }
    assert forall|k: int, x: u16|
        0 <= k < order.len() && k < post_o.len() && #[trigger] cfg.succs_of(
            post_o[k].0 as int,
        ).contains(x) implies ids_contain(post_o, x) || ids_contain(post_s, x) by {
        assert(post_o[k] == order[k]);
        assert(cfg.succs_of(order[k].0 as int).contains(x));
        if !ids_contain(order, x) {
            assert(ids_contain(stack, x));
            let si = choose|si: int| 0 <= si < stack.len() && (#[trigger] stack[si]).0 == x;
            if si < stack.len() - 1 {
                assert(post_s[si].0 == x);
            } else {
                assert(x == block.0);
                assert(ids_contain(post_o, x));
            }
        } else {
            assert(ids_contain(post_o, x));
        }
    }
}

/// Pushing a successor of the last recorded block keeps the traversal
/// state.
#[verifier::rlimit(100)]
proof fn lemma_dfs_push(
    cfg: CFG,
    v: FixedBitSet,
    stack: Seq<Block>,
    order: Seq<Block>,
    s: Block,
    n: int,
)
    requires
        1 <= n <= u16::MAX,
        dfs_core(cfg, v, stack, order, n),
        dfs_closed(cfg, order, stack, order.len() - 1),
        order.len() > 0,
        s.0 < n,
        cfg.succs_of(order.last().0 as int).contains(s.0),
    ensures
        dfs_core(cfg, v, stack.push(s), order, n),
        dfs_closed(cfg, order, stack.push(s), order.len() - 1),
{
    let post = stack.push(s);
    assert forall|i: int|
        0 <= i < n implies (#[trigger] v.has_spec(i) <==> ids_contain(order, i as u16)) by {}
    assert forall|si: int| 0 <= si < post.len() implies (#[trigger] post[si]).0 < n by {
        if si < stack.len() {
            assert(post[si] == stack[si]);
        }
    }
    assert forall|si: int|
        0 <= si < post.len() implies (#[trigger] post[si]).0 == 0 || from_recorded(
        cfg,
        order,
        order.len() as int,
        post[si].0,
    ) by {
        if si < stack.len() {
            assert(post[si] == stack[si]);
        } else {
            assert(post[si] == s);
            assert(cfg.succs_of(order[order.len() - 1].0 as int).contains(s.0));
        }
    }
    assert forall|k: int, x: u16|
        0 <= k < order.len() - 1 && k < order.len() && #[trigger] cfg.succs_of(
            order[k].0 as int,
        ).contains(x) implies ids_contain(order, x) || ids_contain(post, x) by {
        if !ids_contain(order, x) {
            assert(ids_contain(stack, x));
            let si = choose|si: int| 0 <= si < stack.len() && (#[trigger] stack[si]).0 == x;
            assert(post[si].0 == x);
        }
    }
}

/// Computes a depth-first visitation order of `cfg` from its entry block.
#[verifier::rlimit(100)]
pub(crate) fn depth_first_order(cfg: &CFG) -> (order: Vec<Block>)
    requires
        cfg.wf(),
        cfg.entry_spec() == Block(0),
        1 <= cfg.nblocks() <= u16::MAX,
    ensures
        good_order(*cfg, order@),
{
    let n = cfg.blocks_count();
    let mut visited = FixedBitSet::zeroes(n);
    let mut stack: Vec<Block> = Vec::new();
    stack.push(Block::new(0));
    let mut order: Vec<Block> = Vec::new();
    proof {
        assert(stack@ =~= seq![Block(0)]);
        crate::support::bitset::lemma_count_high_zero(visited, 0, visited.capacity_spec());
        assert(visited.count_below(visited.capacity_spec()) == 0);
        assert(dfs_core(*cfg, visited, stack@, order@, n as int));
    }
    while stack.len() > 0
        invariant
            cfg.wf(),
            cfg.entry_spec() == Block(0),
            1 <= n <= u16::MAX,
            n == cfg.nblocks(),
            dfs_core(*cfg, visited, stack@, order@, n as int),
            dfs_closed(*cfg, order@, stack@, order@.len() as int),
        decreases n - order@.len(), stack@.len(),
    {
        let ghost pre_stack = stack@;
        let ghost pre_order = order@;
        let block = match stack.pop() {
            Some(b) => b,
            None => unreached(),
        };
        proof {
            assert(stack@ == pre_stack.drop_last());
            assert(block == pre_stack.last());
            assert(block.0 < n);
        }
        if visited.has(block.index()) {
            proof {
                lemma_dfs_skip(*cfg, visited, pre_stack, order@, n as int);
            }
            continue ;
        }
        let ghost pre_v = visited;
        visited.add(block.index());
        order.push(block);
        proof {
            lemma_dfs_visit(*cfg, pre_v, visited, pre_stack, pre_order, n as int);
            assert(order@ == pre_order.push(block));
        }
        let succs = cfg.succs(block);
        let ghost sseq = cfg.succs_of(block.0 as int);
        let mut j: usize = 0;
        while j < succs.len()
            invariant
                cfg.wf(),
                cfg.entry_spec() == Block(0),
                1 <= n <= u16::MAX,
                n == cfg.nblocks(),
                block.0 < n,
                succs@.map_values(|b: Block| b.0) == sseq,
                sseq == cfg.succs_of(block.0 as int),
                j <= succs@.len(),
                order@.len() > 0,
                order@.last() == block,
                dfs_core(*cfg, visited, stack@, order@, n as int),
                dfs_closed(*cfg, order@, stack@, order@.len() - 1),
                forall|jj: int|
                    0 <= jj < j ==> ids_contain(order@, #[trigger] sseq[jj]) || ids_contain(
                        stack@,
                        sseq[jj],
                    ),
            decreases succs@.len() - j,
        {
            let s = succs[j];
            proof {
                assert(s.0 == succs@.map_values(|b: Block| b.0)[j as int]);
                assert(cfg.succs_of(block.0 as int)[j as int] < cfg.nblocks());
                assert(sseq.contains(s.0));
            }
            if !visited.has(s.index()) {
                let ghost pre = stack@;
                stack.push(s);
                proof {
                    assert(stack@ == pre.push(s));
                    lemma_dfs_push(*cfg, visited, pre, order@, s, n as int);
                    assert(ids_contain(stack@, s.0)) by {
                        assert(stack@[pre.len() as int].0 == s.0);
                    }
                    assert forall|jj: int|
                        0 <= jj < j + 1 implies ids_contain(order@, #[trigger] sseq[jj])
                        || ids_contain(stack@, sseq[jj]) by {
                        if jj < j {
                            if ids_contain(pre, sseq[jj]) {
                                let si = choose|si: int|
                                    0 <= si < pre.len() && (#[trigger] pre[si]).0 == sseq[jj];
                                assert(stack@[si].0 == sseq[jj]);
                            }
                        }
                    }
                }
            } else {
                proof {
                    assert(ids_contain(order@, s.0));
                }
            }
            j += 1;
        }
        proof {
            assert forall|k: int, x: u16|
                0 <= k < order@.len() && #[trigger] cfg.succs_of(order@[k].0 as int).contains(
                    x,
                ) implies ids_contain(order@, x) || ids_contain(stack@, x) by {
                if k == order@.len() - 1 {
                    assert(order@[k] == block);
                    let jj = choose|jj: int| 0 <= jj < sseq.len() && sseq[jj] == x;
                }
            }
        }
    }
    proof {
        assert(order@.len() > 0) by {
            if order@.len() == 0 {
                assert(stack@ == seq![Block(0)]);
            }
        }
        assert(good_order(*cfg, order@));
    }
    order
}

/// Dominance is reflexive: every block dominates itself.
pub proof fn lemma_dominates_reflexive(dt: DomTree, b: int)
    requires
        dt.dom_wf(),
        0 <= b < dt.nnodes(),
    ensures
        dt.dom_reaches(b, b),
{
}

/// A strict dominator holds a strictly smaller rank than the block it
/// dominates; in particular a block on a loop's back edge never dominates
/// a block ranked before the loop was entered.
pub proof fn lemma_dominates_rank(dt: DomTree, a: int, b: int)
    requires
        dt.dom_wf(),
        0 <= a < dt.nnodes(),
        0 <= b < dt.nnodes(),
        dt.dom_reaches(a, b),
        a != b,
    ensures
        dt.rpo_of(a) < dt.rpo_of(b),
{
}

/// Dominance is antisymmetric: two distinct blocks never dominate each
/// other.
pub proof fn lemma_dominates_antisymmetric(dt: DomTree, a: int, b: int)
    requires
        dt.dom_wf(),
        0 <= a < dt.nnodes(),
        0 <= b < dt.nnodes(),
        dt.dom_reaches(a, b),
        a != b,
    ensures
        !dt.dom_reaches(b, a),
{
    lemma_dominates_rank(dt, a, b);
}

/// Dominance is transitive.
pub proof fn lemma_dominates_transitive(dt: DomTree, a: int, b: int, c: int)
    requires
        dt.dom_wf(),
        0 <= a < dt.nnodes(),
        0 <= b < dt.nnodes(),
        0 <= c < dt.nnodes(),
        dt.dom_reaches(a, b),
        dt.dom_reaches(b, c),
    ensures
        dt.dom_reaches(a, c),
    decreases dt.rpo_of(c),
{
    if dt.rpo_of(b) < dt.rpo_of(c) {
        assert(c != 0) by {
            if c == 0 {
                assert(dt.idom_of(0) is None);
            }
        }
        assert(dt.assigned(c)) by {
            if !dt.assigned(c) {
                assert(dt.rpo_of(c) == 0);
            }
        }
        let d = dt.idom_of(c).unwrap();
        assert(dt.dom_reaches(b, d.0 as int));
        lemma_dominates_transitive(dt, a, b, d.0 as int);
        if a != b {
            lemma_dominates_rank(dt, a, b);
        }
        assert(dt.rpo_of(a) < dt.rpo_of(c));
    } else {
        assert(b == c);
    }
}

/// The entry block dominates every ranked block.
pub proof fn lemma_entry_dominates(dt: DomTree, b: int)
    requires
        dt.dom_wf(),
        0 <= b < dt.nnodes(),
        dt.assigned(b),
    ensures
        dt.dom_reaches(0, b),
    decreases dt.rpo_of(b),
{
    if b != 0 {
        let d = dt.idom_of(b).unwrap();
        lemma_entry_dominates(dt, d.0 as int);
        assert(dt.rpo_of(0) < dt.rpo_of(b)) by {
            assert(dt.rpo_of(b) >= 3 * STRIDE);
        }
    }
}

/// Every block of a depth-first visitation order is reachable from the
/// entry: the order starts at the entry and every later block is a
/// successor of an earlier one.
pub proof fn lemma_order_reachable(cfg: CFG, ord: Seq<Block>, k: int)
    requires
        good_order(cfg, ord),
        0 <= k < ord.len(),
    ensures
        reachable(cfg, ord[k].0),
    decreases k,
{
    if k == 0 {
        let p = seq![cfg.entry_spec().0];
        assert(is_path(cfg, p)) by {
            assert(p[0] == cfg.entry_spec().0);
            assert(p[0] == ord[0].0);
            assert(ord[0].0 < cfg.nblocks());
        }
        assert(p.last() == ord[0].0);
    } else {
        assert(from_recorded(cfg, ord, k, ord[k].0));
        let k0 = choose|k0: int|
            0 <= k0 < k && k0 < ord.len() && #[trigger] cfg.succs_of(ord[k0].0 as int).contains(
                ord[k].0,
            );
        lemma_order_reachable(cfg, ord, k0);
        let p = choose|p: Seq<u16>| is_path(cfg, p) && p.last() == ord[k0].0;
        let q = p.push(ord[k].0);
        assert(is_path(cfg, q)) by {
            assert(q[0] == p[0]);
            assert forall|m: int| 0 <= m < q.len() implies #[trigger] q[m] < cfg.nblocks() by {
                if m < p.len() {
                    assert(q[m] == p[m]);
                } else {
                    assert(q[m] == ord[k].0);
                }
            }
            assert forall|m: int|
                0 < m < q.len() implies #[trigger] cfg.succs_of(q[m - 1] as int).contains(
                q[m],
            ) by {
                if m < p.len() {
                    assert(q[m - 1] == p[m - 1] && q[m] == p[m]);
                } else {
                    assert(q[m - 1] == p.last());
                }
            }
        }
        assert(q.last() == ord[k].0);
    }
}

/// A block the traversal never reached is not reachable from the entry,
/// carries no rank, and is dominated by nothing but itself.
pub proof fn lemma_unreachable_unranked(dt: DomTree, cfg: CFG, b: int)
    requires
        dom_tree_for(dt, cfg),
        0 <= b < dt.nnodes(),
        !reachable(cfg, b as u16),
    ensures
        !dt.assigned(b),
        forall|a: int| 0 <= a < dt.nnodes() && a != b ==> !dt.dom_reaches(a, b),
{
    let ord = dt.order_spec();
    assert(!dt.assigned(b)) by {
        if dt.assigned(b) {
            assert(ids_within(ord, ord.len() as int, b as u16)) by {
                if !ids_within(ord, ord.len() as int, b as u16) {
                    assert(!dt.assigned(b));
                }
            }
            let k = choose|k: int|
                0 <= k < ord.len() as int && k < ord.len() && (#[trigger] ord[k]).0 == b as u16;
            lemma_order_reachable(cfg, ord, k);
        }
    }
    assert forall|a: int| 0 <= a < dt.nnodes() && a != b implies !dt.dom_reaches(a, b) by {
        assert(dt.rpo_of(b) == 0);
        assert(!(dt.rpo_of(a) < dt.rpo_of(b)));
    }
}

/// Entry dominance: in a dominator tree built for a graph, the entry
/// block dominates every block reachable from it.
pub proof fn lemma_entry_dominates_reachable(dt: DomTree, cfg: CFG, b: u16)
    requires
        dom_tree_for(dt, cfg),
        reachable(cfg, b),
    ensures
        b < dt.nnodes(),
        dt.dom_reaches(0, b as int),
{
    assert(b < cfg.nblocks()) by {
        let p = choose|p: Seq<u16>| is_path(cfg, p) && p.last() == b;
        assert(p[p.len() - 1] < cfg.nblocks());
    }
    assert(dt.assigned(b as int));
    lemma_entry_dominates(dt, b as int);
}

} // verus!
