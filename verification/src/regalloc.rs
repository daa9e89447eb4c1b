use vstd::prelude::*;

use crate::analysis::liveness::LiveRange;
use crate::analysis::liveness::LivenessAnalysis;
use crate::analysis::liveness::ProgramPoint;
use crate::analysis::liveness::pp_le;
use crate::analysis::liveness::pp_le_pub;
use crate::analysis::liveness::pp_lt;
use crate::analysis::liveness::pp_lt_pub;
use crate::analysis::liveness::range_le;
use crate::analysis::liveness::ranges_sorted;
use crate::support::bitset::FixedBitSet;
use crate::tir::cfg::CFG;
use crate::tir::func::Func;
use crate::tir::func::Reg;
use crate::tir::inst::Inst;

verus! {

/// Where a live range was placed: a physical register or a stack slot.
#[derive(Debug, Clone, Copy, PartialEq, Eq, Structural)]
pub enum AllocatedSlot {
    Reg(Reg),
    Stack(u32),
}

/// One allocation decision: a live range and the slot it received.
#[derive(Debug, Clone, Copy, PartialEq, Eq, Structural)]
pub struct RegAllocResult {
    pub range: LiveRange,
    pub allocated_slot: AllocatedSlot,
}

/// Two ranges overlap when each starts no later than the other ends.
pub open spec fn ranges_overlap(a: LiveRange, b: LiveRange) -> bool {
    pp_le(a.start, b.end) && pp_le(b.start, a.end)
}

/// The order of the expiry queue: by expiry point, then register id.
pub open spec fn entry_le(a: (ProgramPoint, Reg), b: (ProgramPoint, Reg)) -> bool {
    pp_lt(a.0, b.0) || (a.0 == b.0 && a.1 <= b.1)
}

/// No two allocation decisions put simultaneously overlapping ranges into
/// the same physical register.
pub open spec fn alloc_sound(res: Seq<RegAllocResult>) -> bool {
    forall|k1: int, k2: int|
        0 <= k1 < k2 < res.len() && ranges_overlap(
            (#[trigger] res[k1]).range,
            (#[trigger] res[k2]).range,
        ) && res[k1].allocated_slot is Reg && res[k2].allocated_slot is Reg
            ==> res[k1].allocated_slot->Reg_0 != res[k2].allocated_slot->Reg_0
}

/// Linear-scan register allocation state for one run: the registers
/// currently claimed, their expiry points, and the next stack slot.
pub struct RegAlloc<'i, I: Inst> {
    func: &'i Func<I>,
    cfg: &'i CFG,
    liveness: &'i LivenessAnalysis,
    active: FixedBitSet,
    expire_range: Vec<(ProgramPoint, Reg)>,
    stack_slots: u32,
}

impl<'i, I: Inst> RegAlloc<'i, I> {
    /// The active physical-register set.
    pub closed spec fn active_spec(self) -> FixedBitSet {
        self.active
    }

    /// The expiry queue, ascending by expiry point.
    pub closed spec fn queue_spec(self) -> Seq<(ProgramPoint, Reg)> {
        self.expire_range@
    }

    /// The next free stack slot.
    pub closed spec fn stack_slots_spec(self) -> u32 {
        self.stack_slots
    }

    /// The liveness result the allocator consults.
    pub closed spec fn liveness_spec(self) -> LivenessAnalysis {
        *self.liveness
    }

    /// Allocation-state soundness: the active set is sized to the
    /// physical registers, the queue is sorted, names each register at
    /// most once, keeps every entry in range, and lists exactly the
    /// active registers.
    pub open spec fn alloc_wf(self) -> bool {
        &&& self.active_spec().wf()
        &&& self.active_spec().nwords() == (I::spec_preg_count() + 31) / 32
        &&& forall|j1: int, j2: int|
            0 <= j1 <= j2 < self.queue_spec().len() ==> entry_le(
                #[trigger] self.queue_spec()[j1],
                #[trigger] self.queue_spec()[j2],
            )
        &&& forall|j1: int, j2: int|
            0 <= j1 < j2 < self.queue_spec().len() ==> (#[trigger] self.queue_spec()[j1]).1 != (
            #[trigger] self.queue_spec()[j2]).1
        &&& forall|j: int|
            0 <= j < self.queue_spec().len() ==> (#[trigger] self.queue_spec()[j]).1
                < I::spec_preg_count()
        &&& forall|q: int|
            self.active_spec().has_spec(q) <==> exists|j: int|
                0 <= j < self.queue_spec().len() && (#[trigger] self.queue_spec()[j]).1 as int == q
    }

    /// A fresh allocator over `func`, `cfg` and `liveness`.
    pub fn new(func: &'i Func<I>, cfg: &'i CFG, liveness: &'i LivenessAnalysis) -> (r: Self)
        requires
            I::spec_preg_count() + 31 <= usize::MAX,
        ensures
            r.alloc_wf(),
            r.queue_spec() == Seq::<(ProgramPoint, Reg)>::empty(),
            r.stack_slots_spec() == 0,
            r.liveness_spec() == *liveness,
    {
        let count = I::preg_count();
        let r = RegAlloc {
            func,
            cfg,
            liveness,
            active: FixedBitSet::zeroes(count as usize),
            expire_range: Vec::new(),
            stack_slots: 0,
        };
        proof {
            assert forall|q: int|
                r.active_spec().has_spec(q) <==> exists|j: int|
                    0 <= j < r.queue_spec().len() && (#[trigger] r.queue_spec()[j]).1 as int
                        == q by {}
        }
        r
    }

    /// Releases every claimed register whose recorded expiry point lies
    /// strictly before `p`.
    #[verifier::rlimit(100)]
    #[verifier::spinoff_prover]
    #[verifier::loop_isolation(false)]
    fn expire(&mut self, p: &ProgramPoint)
        requires
            old(self).alloc_wf(),
        ensures
            final(self).alloc_wf(),
            final(self).stack_slots_spec() == old(self).stack_slots_spec(),
            final(self).liveness_spec() == old(self).liveness_spec(),
            forall|j: int|
                0 <= j < final(self).queue_spec().len() ==> old(self).queue_spec().contains(
                    #[trigger] final(self).queue_spec()[j],
                ),
            forall|j: int|
                0 <= j < final(self).queue_spec().len() ==> !pp_lt(
                    (#[trigger] final(self).queue_spec()[j]).0,
                    *p,
                ),
            forall|ep: ProgramPoint, er: Reg|
                old(self).queue_spec().contains((ep, er)) && !pp_lt(ep, *p)
                    ==> final(self).queue_spec().contains((ep, er)),
            forall|q: int|
                #[trigger] final(self).active_spec().has_spec(q)
                    ==> old(self).active_spec().has_spec(q),
    {
        loop
            invariant
                self.alloc_wf(),
                self.stack_slots_spec() == old(self).stack_slots_spec(),
                self.liveness_spec() == old(self).liveness_spec(),
                forall|j: int|
                    0 <= j < self.queue_spec().len() ==> old(self).queue_spec().contains(
                        #[trigger] self.queue_spec()[j],
                    ),
                forall|ep: ProgramPoint, er: Reg|
                    old(self).queue_spec().contains((ep, er)) && !pp_lt(ep, *p)
                        ==> self.queue_spec().contains((ep, er)),
                forall|q: int|
                    #[trigger] self.active_spec().has_spec(q) ==> old(self).active_spec().has_spec(
                        q,
                    ),
            decreases self.queue_spec().len(),
        {
            if self.expire_range.len() == 0 {
                proof {
                    assert forall|j: int|
                        0 <= j < self.queue_spec().len() implies !pp_lt(
                        (#[trigger] self.queue_spec()[j]).0,
                        *p,
                    ) by {}
                }
                return ;
            }
            let first = self.expire_range[0];
            if pp_lt_pub(&first.0, p) {
                let ghost pre = *self;
                let entry = self.expire_range.remove(0);
                self.active.del(entry.1 as usize);
                proof {
                    assert(entry == pre.queue_spec()[0]);
                    assert(self.queue_spec() == pre.queue_spec().remove(0));
                    assert forall|j: int|
                        0 <= j < self.queue_spec().len() implies old(self).queue_spec().contains(
                        #[trigger] self.queue_spec()[j],
                    ) by {
                        assert(self.queue_spec()[j] == pre.queue_spec()[j + 1]);
                        assert(pre.queue_spec().contains(pre.queue_spec()[j + 1]));
                    }
                    assert forall|ep: ProgramPoint, er: Reg|
                        old(self).queue_spec().contains((ep, er)) && !pp_lt(
                            ep,
                            *p,
                        ) implies self.queue_spec().contains((ep, er)) by {
                        assert(pre.queue_spec().contains((ep, er)));
                        let j = choose|j: int|
                            0 <= j < pre.queue_spec().len() && pre.queue_spec()[j] == (ep, er);
                        assert(j != 0);
                        assert(self.queue_spec()[j - 1] == (ep, er));
                    }
                    assert forall|q: int|
                        self.active_spec().has_spec(q) <==> exists|j: int|
                            0 <= j < self.queue_spec().len() && (#[trigger] self.queue_spec()[j]).1
                                as int == q by {
                        if q != entry.1 as int {
                            if pre.active_spec().has_spec(q) {
                                let j = choose|j: int|
                                    0 <= j < pre.queue_spec().len() && (
                                    #[trigger] pre.queue_spec()[j]).1 as int == q;
                                assert(j != 0);
                                assert(self.queue_spec()[j - 1].1 as int == q);
                            }
                            if exists|j: int|
                                0 <= j < self.queue_spec().len() && (
                                #[trigger] self.queue_spec()[j]).1 as int == q {
                                let j = choose|j: int|
                                    0 <= j < self.queue_spec().len() && (
                                    #[trigger] self.queue_spec()[j]).1 as int == q;
                                assert(pre.queue_spec()[j + 1].1 as int == q);
                            }
                        } else {
                            if exists|j: int|
                                0 <= j < self.queue_spec().len() && (
                                #[trigger] self.queue_spec()[j]).1 as int == q {
                                let j = choose|j: int|
                                    0 <= j < self.queue_spec().len() && (
                                    #[trigger] self.queue_spec()[j]).1 as int == q;
                                assert(pre.queue_spec()[j + 1].1 == pre.queue_spec()[0].1);
                            }
                        }
                    }
                    assert(self.alloc_wf());
                }
            } else {
                proof {
                    assert forall|j: int|
                        0 <= j < self.queue_spec().len() implies !pp_lt(
                        (#[trigger] self.queue_spec()[j]).0,
                        *p,
                    ) by {
                        assert(entry_le(self.queue_spec()[0], self.queue_spec()[j]));
                    }
                }
                return ;
            }
        }
    }

    /// The sorted position at which the entry `(e, r)` belongs.
    #[verifier::rlimit(100)]
    #[verifier::spinoff_prover]
    #[verifier::loop_isolation(false)]
    fn find_pos(&self, e: ProgramPoint, r: Reg) -> (pos: usize)
        requires
            self.alloc_wf(),
        ensures
            0 <= pos <= self.queue_spec().len(),
            forall|j: int| 0 <= j < pos ==> entry_le(#[trigger] self.queue_spec()[j], (e, r)),
            pos < self.queue_spec().len() ==> entry_le((e, r), self.queue_spec()[pos as int]),
    {
        let mut pos: usize = 0;
        while pos < self.expire_range.len()
            invariant
                0 <= pos <= self.queue_spec().len(),
                forall|j: int| 0 <= j < pos ==> entry_le(#[trigger] self.queue_spec()[j], (e, r)),
            decreases self.queue_spec().len() - pos,
        {
            let cur = self.expire_range[pos];
            let stop = if pp_lt_pub(&e, &cur.0) {
                true
            } else if pp_le_pub(&cur.0, &e) && pp_le_pub(&e, &cur.0) {
                r < cur.1
            } else {
                false
            };
            if stop {
                proof {
                    assert(entry_le((e, r), self.queue_spec()[pos as int]));
                }
                return pos;
            }
            proof {
                assert(entry_le(self.queue_spec()[pos as int], (e, r)));
            }
            pos += 1;
        }
        pos
    }

    /// Claims a register with expiry `e`, keeping the queue sorted.
    #[verifier::rlimit(100)]
    #[verifier::spinoff_prover]
    #[verifier::loop_isolation(false)]
    fn claim(&mut self, e: ProgramPoint, r: Reg)
        requires
            old(self).alloc_wf(),
            r < I::spec_preg_count(),
            !old(self).active_spec().has_spec(r as int),
        ensures
            final(self).alloc_wf(),
            final(self).stack_slots_spec() == old(self).stack_slots_spec(),
            final(self).liveness_spec() == old(self).liveness_spec(),
            final(self).active_spec().has_spec(r as int),
            forall|q: int|
                #[trigger] final(self).active_spec().has_spec(q) == (q == r as int
                    || old(self).active_spec().has_spec(q)),
            forall|ep: ProgramPoint, er: Reg|
                old(self).queue_spec().contains((ep, er))
                    ==> final(self).queue_spec().contains((ep, er)),
            final(self).queue_spec().contains((e, r)),
            forall|j: int|
                0 <= j < final(self).queue_spec().len() ==> old(self).queue_spec().contains(
                    #[trigger] final(self).queue_spec()[j],
                ) || final(self).queue_spec()[j] == (e, r),
    {
        let ghost pre = *self;
        let pos = self.find_pos(e, r);
        let ghost at: int = pos as int;
        self.expire_range.insert(pos, (e, r));
        self.active.add(r as usize);
        proof {
            assert(self.queue_spec() == pre.queue_spec().insert(at, (e, r)));
            assert(r < I::spec_preg_count());
            assert((I::spec_preg_count() + 31) / 32 * 32 >= I::spec_preg_count())
                by (nonlinear_arith);
            assert forall|j1: int, j2: int|
                0 <= j1 <= j2 < self.queue_spec().len() implies entry_le(
                #[trigger] self.queue_spec()[j1],
                #[trigger] self.queue_spec()[j2],
            ) by {
                if j1 < at && j2 == at {
                    assert(self.queue_spec()[j1] == pre.queue_spec()[j1]);
                } else if j1 == at && j2 > at {
                    assert(self.queue_spec()[j2] == pre.queue_spec()[j2 - 1]);
                    assert(!pp_lt(pre.queue_spec()[j2 - 1].0, e));
                    assert(pre.queue_spec()[j2 - 1].1 != r) by {
                        if pre.queue_spec()[j2 - 1].1 == r {
                            assert(pre.active_spec().has_spec(r as int));
                        }
                    }
                    if at < pre.queue_spec().len() {
                        assert(entry_le(pre.queue_spec()[at], pre.queue_spec()[j2 - 1]));
                    } else {
                        assert(entry_le(pre.queue_spec()[j2 - 1], (e, r)));
                        assert(pre.queue_spec()[j2 - 1].0 == e || pp_lt(
                            pre.queue_spec()[j2 - 1].0,
                            e,
                        ));
                    }
                } else if j1 < at && j2 > at {
                    assert(self.queue_spec()[j1] == pre.queue_spec()[j1]);
                    assert(self.queue_spec()[j2] == pre.queue_spec()[j2 - 1]);
                    assert(entry_le(pre.queue_spec()[j1], pre.queue_spec()[j2 - 1]));
                } else if j1 < at && j2 < at {
                    assert(self.queue_spec()[j1] == pre.queue_spec()[j1]);
                    assert(self.queue_spec()[j2] == pre.queue_spec()[j2]);
                } else if j1 > at && j2 > at {
                    assert(self.queue_spec()[j1] == pre.queue_spec()[j1 - 1]);
                    assert(self.queue_spec()[j2] == pre.queue_spec()[j2 - 1]);
                }
            }
            assert forall|j1: int, j2: int|
                0 <= j1 < j2 < self.queue_spec().len() implies (#[trigger] self.queue_spec()[j1]).1
                != (#[trigger] self.queue_spec()[j2]).1 by {
                assert forall|j: int|
                    0 <= j < pre.queue_spec().len() implies (#[trigger] pre.queue_spec()[j]).1
                    != r by {
                    if pre.queue_spec()[j].1 == r {
                        assert(pre.active_spec().has_spec(r as int));
                    }
                }
            }
            assert forall|q: int|
                self.active_spec().has_spec(q) <==> exists|j: int|
                    0 <= j < self.queue_spec().len() && (#[trigger] self.queue_spec()[j]).1 as int
                        == q by {
                if q == r as int {
                    assert(self.queue_spec()[at].1 as int == q);
                } else {
                    if pre.active_spec().has_spec(q) {
                        let j = choose|j: int|
                            0 <= j < pre.queue_spec().len() && (#[trigger] pre.queue_spec()[j]).1
                                as int == q;
                        if j < at {
                            assert(self.queue_spec()[j].1 as int == q);
                        } else {
                            assert(self.queue_spec()[j + 1].1 as int == q);
                        }
                    }
                    if exists|j: int|
                        0 <= j < self.queue_spec().len() && (#[trigger] self.queue_spec()[j]).1
                            as int == q {
                        let j = choose|j: int|
                            0 <= j < self.queue_spec().len() && (#[trigger] self.queue_spec()[j]).1
                                as int == q;
                        if j < at {
                            assert(pre.queue_spec()[j].1 as int == q);
                        } else {
                            assert(j != at);
                            assert(pre.queue_spec()[j - 1].1 as int == q);
                        }
                    }
                }
            }
            assert(self.alloc_wf());
            assert(self.queue_spec()[at] == (e, r));
            assert forall|ep: ProgramPoint, er: Reg|
                pre.queue_spec().contains((ep, er)) implies self.queue_spec().contains(
                (ep, er),
            ) by {
                let j = choose|j: int|
                    0 <= j < pre.queue_spec().len() && pre.queue_spec()[j] == (ep, er);
                if j < at {
                    assert(self.queue_spec()[j] == (ep, er));
                } else {
                    assert(self.queue_spec()[j + 1] == (ep, er));
                }
            }
            assert forall|j: int|
                0 <= j < self.queue_spec().len() implies old(self).queue_spec().contains(
                #[trigger] self.queue_spec()[j],
            ) || self.queue_spec()[j] == (e, r) by {
                if j < at {
                    assert(pre.queue_spec()[j] == self.queue_spec()[j]);
                    assert(pre.queue_spec().contains(pre.queue_spec()[j]));
                } else if j > at {
                    assert(pre.queue_spec()[j - 1] == self.queue_spec()[j]);
                    assert(pre.queue_spec().contains(pre.queue_spec()[j - 1]));
                }
            }
        }
    }
}

} // verus!
verus! {

impl<'i, I: Inst> RegAlloc<'i, I> {
    /// Scans the physical registers not currently claimed; one whose own
    /// fixed live ranges cover `cur` is reserved at `cur`, the first
    /// without such a conflict is returned. `None` means every physical
    /// register is taken.
    #[verifier::rlimit(100)]
    #[verifier::spinoff_prover]
    #[verifier::loop_isolation(false)]
    fn lookup_available_reg(&mut self, cur: &ProgramPoint) -> (r: Option<Reg>)
        requires
            old(self).alloc_wf(),
            I::spec_preg_count() <= old(self).liveness_spec().nregs_spec(),
            forall|j: int|
                0 <= j < old(self).queue_spec().len() ==> !pp_lt(
                    (#[trigger] old(self).queue_spec()[j]).0,
                    *cur,
                ),
        ensures
            final(self).alloc_wf(),
            final(self).stack_slots_spec() == old(self).stack_slots_spec(),
            final(self).liveness_spec() == old(self).liveness_spec(),
            forall|q: int|
                old(self).active_spec().has_spec(q)
                    ==> #[trigger] final(self).active_spec().has_spec(q),
            forall|ep: ProgramPoint, er: Reg|
                old(self).queue_spec().contains((ep, er))
                    ==> final(self).queue_spec().contains((ep, er)),
            forall|j: int|
                0 <= j < final(self).queue_spec().len() ==> !pp_lt(
                    (#[trigger] final(self).queue_spec()[j]).0,
                    *cur,
                ),
            r matches Some(p) ==> p < I::spec_preg_count() && !final(self).active_spec().has_spec(
                p as int,
            ),
    {
        let count = I::preg_count();
        let mut reg: u32 = 0;
        while reg < count
            invariant
                0 <= reg <= count,
                count == I::spec_preg_count(),
                self.alloc_wf(),
                self.stack_slots_spec() == old(self).stack_slots_spec(),
                self.liveness_spec() == old(self).liveness_spec(),
                forall|q: int|
                    old(self).active_spec().has_spec(q) ==> #[trigger] self.active_spec().has_spec(
                        q,
                    ),
                forall|ep: ProgramPoint, er: Reg|
                    old(self).queue_spec().contains((ep, er)) ==> self.queue_spec().contains(
                        (ep, er),
                    ),
                forall|j: int|
                    0 <= j < self.queue_spec().len() ==> !pp_lt(
                        (#[trigger] self.queue_spec()[j]).0,
                        *cur,
                    ),
            decreases count - reg,
        {
            if !self.active.has(reg as usize) {
                let ranges = self.liveness.get_life_ranges(reg);
                let mut conflict = false;
                let mut j: usize = 0;
                while j < ranges.len()
                    invariant
                        0 <= j <= ranges@.len(),
                    decreases ranges@.len() - j,
                {
                    let rg = ranges[j];
                    if pp_le_pub(&rg.start, cur) && pp_le_pub(cur, &rg.end) {
                        conflict = true;
                    }
                    j += 1;
                }
                if conflict {
                    let ghost mid = *self;
                    self.claim(*cur, reg);
                    proof {
                        assert forall|ep: ProgramPoint, er: Reg|
                            old(self).queue_spec().contains((ep, er)) implies self.queue_spec().contains(
                            (ep, er),
                        ) by {
                            assert(mid.queue_spec().contains((ep, er)));
                        }
                        assert forall|j2: int|
                            0 <= j2 < self.queue_spec().len() implies !pp_lt(
                            (#[trigger] self.queue_spec()[j2]).0,
                            *cur,
                        ) by {
                            if self.queue_spec()[j2] != (*cur, reg) {
                                assert(mid.queue_spec().contains(self.queue_spec()[j2]));
                                let jj = choose|jj: int|
                                    0 <= jj < mid.queue_spec().len() && mid.queue_spec()[jj]
                                        == self.queue_spec()[j2];
                            }
                        }
                    }
                } else {
                    return Some(reg);
                }
            }
            reg += 1;
        }
        None
    }

    /// Allocates each live range, in ascending start order, to a free
    /// physical register or, when none is free, to a fresh stack slot.
    /// The result holds exactly one final decision per virtual-register
    /// live range of the liveness result, in ascending start order, and
    /// overlapping ranges never share a physical register.
    #[verifier::rlimit(100)]
    #[verifier::spinoff_prover]
    #[verifier::loop_isolation(false)]
    pub fn run(&mut self) -> (res: Vec<RegAllocResult>)
        requires
            old(self).alloc_wf(),
            old(self).queue_spec() == Seq::<(ProgramPoint, Reg)>::empty(),
            old(self).liveness_spec().ranges_wf_all(),
            old(self).liveness_spec().nregs_spec() <= u32::MAX,
            I::spec_preg_count() <= old(self).liveness_spec().nregs_spec(),
        ensures
            alloc_sound(res@),
            res@.map_values(|d: RegAllocResult| d.range).to_multiset()
                == crate::analysis::liveness::ranges_between(
                old(self).liveness_spec(),
                I::spec_preg_count() as int,
                old(self).liveness_spec().nregs_spec(),
            ),
            ranges_sorted(res@.map_values(|d: RegAllocResult| d.range)),
            forall|k: int|
                0 <= k < res@.len() ==> I::spec_preg_count() <= (#[trigger] res@[k]).range.reg
                    < old(self).liveness_spec().nregs_spec(),
            forall|k1: int, k2: int|
                0 <= k1 < k2 < res@.len() && (#[trigger] res@[k1]).range.reg == (
                #[trigger] res@[k2]).range.reg ==> pp_lt(res@[k1].range.end, res@[k2].range.start),
            forall|k: int|
                0 <= k < res@.len() && (#[trigger] res@[k]).allocated_slot is Reg
                    ==> res@[k].allocated_slot->Reg_0 < I::spec_preg_count(),
    {
        let mut res: Vec<RegAllocResult> = Vec::new();
        let liveness = self.liveness;
        let live_ranges = liveness.get_vreg_live_ranges(I::preg_count());
        let ghost lr_seq = live_ranges@;
        let n = live_ranges.len();
        let mut i: usize = 0;
        while i < n
            invariant
                n == lr_seq.len(),
                0 <= i <= n,
                live_ranges@ == lr_seq,
                ranges_sorted(lr_seq),
                forall|k: int|
                    0 <= k < lr_seq.len() ==> pp_le(
                        (#[trigger] lr_seq[k]).start,
                        lr_seq[k].end,
                    ),
                self.alloc_wf(),
                self.liveness_spec() == old(self).liveness_spec(),
                res@.len() == i,
                forall|k: int| 0 <= k < i ==> (#[trigger] res@[k]).range == lr_seq[k],
                forall|k: int|
                    0 <= k < i && (#[trigger] res@[k]).allocated_slot is Reg
                        ==> res@[k].allocated_slot->Reg_0 < I::spec_preg_count(),
                forall|k: int|
                    0 <= k < i && (#[trigger] res@[k]).allocated_slot is Reg ==> (exists|j: int|
                        0 <= j < self.queue_spec().len() && (#[trigger] self.queue_spec()[j]).1
                            == res@[k].allocated_slot->Reg_0 && pp_le(
                            res@[k].range.end,
                            self.queue_spec()[j].0,
                        )) || (i > 0 && pp_lt(res@[k].range.end, lr_seq[i - 1].start)),
                alloc_sound(res@),
            decreases n - i,
        {
            let lr = live_ranges[i];
            let ghost pre_exp = *self;
            self.expire(&lr.start);
            proof {
                assert forall|k: int|
                    0 <= k < i && (#[trigger] res@[k]).allocated_slot is Reg implies (exists|
                    j: int,
                |
                    0 <= j < self.queue_spec().len() && (#[trigger] self.queue_spec()[j]).1
                        == res@[k].allocated_slot->Reg_0 && pp_le(
                        res@[k].range.end,
                        self.queue_spec()[j].0,
                    )) || pp_lt(res@[k].range.end, lr_seq[i as int].start) by {
                    if i > 0 && pp_lt(res@[k].range.end, lr_seq[i - 1].start) {
                        assert(range_le(lr_seq[i - 1], lr_seq[i as int]));
                        assert(pp_le(lr_seq[i - 1].start, lr_seq[i as int].start));
                    } else if res@[k].allocated_slot is Reg {
                        let j = choose|j: int|
                            0 <= j < pre_exp.queue_spec().len() && (
                            #[trigger] pre_exp.queue_spec()[j]).1 == res@[k].allocated_slot->Reg_0
                                && pp_le(res@[k].range.end, pre_exp.queue_spec()[j].0);
                        let e = pre_exp.queue_spec()[j];
                        if pp_lt(e.0, lr.start) {
                            assert(pp_lt(res@[k].range.end, lr_seq[i as int].start));
                        } else {
                            assert(self.queue_spec().contains(e));
                            let j2 = choose|j2: int|
                                0 <= j2 < self.queue_spec().len() && self.queue_spec()[j2] == e;
                        }
                    }
                }
            }
            let ghost pre_look = *self;
            let chosen = self.lookup_available_reg(&lr.start);
            proof {
                assert forall|k: int|
                    0 <= k < i && (#[trigger] res@[k]).allocated_slot is Reg implies (exists|
                    j: int,
                |
                    0 <= j < self.queue_spec().len() && (#[trigger] self.queue_spec()[j]).1
                        == res@[k].allocated_slot->Reg_0 && pp_le(
                        res@[k].range.end,
                        self.queue_spec()[j].0,
                    )) || pp_lt(res@[k].range.end, lr_seq[i as int].start) by {
                    if !pp_lt(res@[k].range.end, lr_seq[i as int].start) {
                        let j = choose|j: int|
                            0 <= j < pre_look.queue_spec().len() && (
                            #[trigger] pre_look.queue_spec()[j]).1 == res@[k].allocated_slot->Reg_0
                                && pp_le(res@[k].range.end, pre_look.queue_spec()[j].0);
                        let e = pre_look.queue_spec()[j];
                        assert(self.queue_spec().contains(e));
                        let j2 = choose|j2: int|
                            0 <= j2 < self.queue_spec().len() && self.queue_spec()[j2] == e;
                    }
                }
            }
            let ghost post_look = *self;
            match chosen {
                Some(reg) => {
                    let ghost pre_claim = *self;
                    proof {
                        assert forall|k: int|
                            0 <= k < i && (#[trigger] res@[k]).allocated_slot is Reg
                                && res@[k].allocated_slot->Reg_0 == reg implies pp_lt(
                            res@[k].range.end,
                            lr_seq[i as int].start,
                        ) by {
                            if !pp_lt(res@[k].range.end, lr_seq[i as int].start) {
                                let j = choose|j: int|
                                    0 <= j < pre_claim.queue_spec().len() && (
                                    #[trigger] pre_claim.queue_spec()[j]).1 == res@[k].allocated_slot->Reg_0
                                        && pp_le(res@[k].range.end, pre_claim.queue_spec()[j].0);
                                assert(pre_claim.active_spec().has_spec(reg as int));
                            }
                        }
                    }
                    res.push(RegAllocResult { range: lr, allocated_slot: AllocatedSlot::Reg(reg) });
                    self.claim(lr.end, reg);
                    proof {
                        assert(alloc_sound(res@)) by {
                            assert forall|k1: int, k2: int|
                                0 <= k1 < k2 < res@.len() && ranges_overlap(
                                    (#[trigger] res@[k1]).range,
                                    (#[trigger] res@[k2]).range,
                                ) && res@[k1].allocated_slot is Reg && res@[k2].allocated_slot
                                is Reg implies res@[k1].allocated_slot->Reg_0
                                != res@[k2].allocated_slot->Reg_0 by {
                                if k2 == res@.len() - 1 {
                                    if res@[k1].allocated_slot->Reg_0 == reg {
                                        assert(pp_lt(res@[k1].range.end, lr.start));
                                        assert(!ranges_overlap(res@[k1].range, lr));
                                    }
                                }
                            }
                        }
                        assert forall|k: int|
                            0 <= k < res@.len() && (#[trigger] res@[k]).allocated_slot
                                is Reg implies (exists|j: int|
                            0 <= j < self.queue_spec().len() && (#[trigger] self.queue_spec()[j]).1
                                == res@[k].allocated_slot->Reg_0 && pp_le(
                                res@[k].range.end,
                                self.queue_spec()[j].0,
                            )) || (i + 1 > 0 && pp_lt(
                            res@[k].range.end,
                            lr_seq[i as int].start,
                        )) by {
                            if k == res@.len() - 1 {
                                assert(self.queue_spec().contains((lr.end, reg)));
                                let j2 = choose|j2: int|
                                    0 <= j2 < self.queue_spec().len() && self.queue_spec()[j2] == (
                                    lr.end,
                                    reg,
                                );
                            } else if !pp_lt(res@[k].range.end, lr_seq[i as int].start) {
                                let j = choose|j: int|
                                    0 <= j < pre_claim.queue_spec().len() && (
                                    #[trigger] pre_claim.queue_spec()[j]).1 == res@[k].allocated_slot->Reg_0
                                        && pp_le(res@[k].range.end, pre_claim.queue_spec()[j].0);
                                let e = pre_claim.queue_spec()[j];
                                assert(self.queue_spec().contains(e));
                                let j2 = choose|j2: int|
                                    0 <= j2 < self.queue_spec().len() && self.queue_spec()[j2]
                                        == e;
                            }
                        }
                    }
                },
                None => {
                    let slot = self.stack_slots;
                    if slot < u32::MAX {
                        self.stack_slots = slot + 1;
                    }
                    res.push(
                        RegAllocResult { range: lr, allocated_slot: AllocatedSlot::Stack(slot) },
                    );
                    proof {
                        assert(self.queue_spec() == post_look.queue_spec());
                        assert(self.active_spec() == post_look.active_spec());
                        assert(self.alloc_wf()) by {
                            assert forall|q: int|
                                self.active_spec().has_spec(q) <==> exists|j: int|
                                    0 <= j < self.queue_spec().len() && (
                                    #[trigger] self.queue_spec()[j]).1 as int == q by {
                                if post_look.active_spec().has_spec(q) {
                                    let j = choose|j: int|
                                        0 <= j < post_look.queue_spec().len() && (
                                        #[trigger] post_look.queue_spec()[j]).1 as int == q;
                                    assert(self.queue_spec()[j].1 as int == q);
                                }
                                if exists|j: int|
                                    0 <= j < self.queue_spec().len() && (
                                    #[trigger] self.queue_spec()[j]).1 as int == q {
                                    let j = choose|j: int|
                                        0 <= j < self.queue_spec().len() && (
                                        #[trigger] self.queue_spec()[j]).1 as int == q;
                                    assert(post_look.queue_spec()[j].1 as int == q);
                                }
                            }
                        }
                        assert forall|k: int|
                            0 <= k < res@.len() && (#[trigger] res@[k]).allocated_slot
                                is Reg implies (exists|j: int|
                            0 <= j < self.queue_spec().len() && (#[trigger] self.queue_spec()[j]).1
                                == res@[k].allocated_slot->Reg_0 && pp_le(
                                res@[k].range.end,
                                self.queue_spec()[j].0,
                            )) || (i + 1 > 0 && pp_lt(
                            res@[k].range.end,
                            lr_seq[i as int].start,
                        )) by {
                            assert(self.queue_spec() == post_look.queue_spec());
                            assert(self.active_spec() == post_look.active_spec());
                            if k < res@.len() - 1 && !pp_lt(
                                res@[k].range.end,
                                lr_seq[i as int].start,
                            ) {
                                let j = choose|j: int|
                                    0 <= j < post_look.queue_spec().len() && (
                                    #[trigger] post_look.queue_spec()[j]).1 == res@[k].allocated_slot->Reg_0
                                        && pp_le(res@[k].range.end, post_look.queue_spec()[j].0);
                            }
                        }
                    }
                },
            }
            i += 1;
        }
        proof {
            assert(res@.map_values(|d: RegAllocResult| d.range) =~= lr_seq);
            assert(lr_seq.to_multiset() == crate::analysis::liveness::ranges_between(
                old(self).liveness_spec(),
                I::spec_preg_count() as int,
                old(self).liveness_spec().nregs_spec(),
            ));
            assert forall|k: int|
                0 <= k < res@.len() implies I::spec_preg_count() <= (#[trigger] res@[k]).range.reg
                < old(self).liveness_spec().nregs_spec() by {
                assert(res@[k].range == lr_seq[k]);
            }
            assert forall|k1: int, k2: int|
                0 <= k1 < k2 < res@.len() && (#[trigger] res@[k1]).range.reg == (
                #[trigger] res@[k2]).range.reg implies pp_lt(
                res@[k1].range.end,
                res@[k2].range.start,
            ) by {
                assert(res@[k1].range == lr_seq[k1]);
                assert(res@[k2].range == lr_seq[k2]);
            }
        }
        res
    }
}

} // verus!
verus! {

/// Rewriting left every block the same length and every instruction's
/// control behaviour — branch targets and terminator classification —
/// untouched.
pub open spec fn control_flow_preserved<I: Inst>(post: Func<I>, pre: Func<I>) -> bool {
    &&& post.num_blocks() == pre.num_blocks()
    &&& forall|b: int|
        0 <= b < pre.num_blocks() ==> (#[trigger] post.insts_of(b)).len() == pre.insts_of(b).len()
    &&& forall|b: int, i: int|
        0 <= b < pre.num_blocks() && 0 <= i < pre.insts_of(b).len() ==> (#[trigger] post.insts_of(
            b,
        )[i]).spec_targets() == pre.insts_of(b)[i].spec_targets() && post.insts_of(
            b,
        )[i].spec_is_branch() == pre.insts_of(b)[i].spec_is_branch() && post.insts_of(
            b,
        )[i].spec_is_ret() == pre.insts_of(b)[i].spec_is_ret()
}

/// Whether the slot table resolves the register id `x` — at or above
/// `preg_count` — to a physical register.
pub open spec fn slot_resolvable(slots: Seq<Option<AllocatedSlot>>, x: u32, preg: u32) -> bool {
    &&& x >= preg
    &&& x - preg < slots.len()
    &&& slots[x - preg] matches Some(s) && s is Reg && s->Reg_0 < preg
}

/// What the slot table turns the register id `x` into: the physical
/// register it resolves a virtual id to, and any other id unchanged.
pub open spec fn resolved_of(slots: Seq<Option<AllocatedSlot>>, x: u32, preg: u32) -> u32 {
    if slot_resolvable(slots, x, preg) {
        slots[x - preg]->Some_0->Reg_0
    } else {
        x
    }
}

/// Whether `x` occurs among the first `upto` entries of `ops`.
pub open spec fn op_seen(ops: Seq<u32>, upto: int, x: u32) -> bool {
    exists|m: int| 0 <= m < upto && ops[m] == x
}

/// Substitutes every register operand of `inst` at or above `preg_count`
/// by its resolved physical register. The second result is whether every
/// such operand had one: when it is true, the rewritten instruction
/// refers to no virtual register at all, each of its operands is exactly
/// the slot table's resolution of the original operand, and its control
/// behaviour is untouched.
#[verifier::rlimit(100)]
#[verifier::spinoff_prover]
#[verifier::loop_isolation(false)]
pub fn resolve_inst<I: Inst>(inst: &I, slots: &Vec<Option<AllocatedSlot>>, preg_count: u32) -> (r: (
    I,
    bool,
))
    ensures
        r.0.spec_targets() == inst.spec_targets(),
        r.0.spec_is_branch() == inst.spec_is_branch(),
        r.0.spec_is_ret() == inst.spec_is_ret(),
        r.1 ==> forall|j: int|
            0 <= j < r.0.spec_uses().len() ==> #[trigger] r.0.spec_uses()[j] < preg_count,
        r.1 ==> forall|j: int|
            0 <= j < r.0.spec_defs().len() ==> #[trigger] r.0.spec_defs()[j] < preg_count,
        r.1 ==> r.0.spec_uses() == inst.spec_uses().map_values(
            |x: u32| resolved_of(slots@, x, preg_count),
        ),
        r.1 ==> r.0.spec_defs() == inst.spec_defs().map_values(
            |x: u32| resolved_of(slots@, x, preg_count),
        ),
        (forall|x: u32|
            (inst.spec_uses().contains(x) || inst.spec_defs().contains(x)) && x >= preg_count
                ==> slot_resolvable(slots@, x, preg_count)) ==> r.1,
{
    let defs_list = inst.get_defs();
    let uses_list = inst.get_uses();
    let dl = defs_list.as_slice();
    let ul = uses_list.as_slice();
    let mut ops: Vec<u32> = Vec::new();
    let mut a: usize = 0;
    while a < dl.len()
        invariant
            0 <= a <= dl@.len(),
            ops@ == dl@.subrange(0, a as int),
        decreases dl@.len() - a,
    {
        ops.push(dl[a]);
        proof {
            assert(ops@ =~= dl@.subrange(0, a + 1));
        }
        a += 1;
    }
    let mut b: usize = 0;
    while b < ul.len()
        invariant
            0 <= b <= ul@.len(),
            ops@ == dl@ + ul@.subrange(0, b as int),
        decreases ul@.len() - b,
    {
        proof {
            assert(ops@ =~= dl@ + ul@.subrange(0, b as int));
        }
        ops.push(ul[b]);
        proof {
            assert(ops@ =~= dl@ + ul@.subrange(0, b + 1));
        }
        b += 1;
    }
    proof {
        assert(ops@ =~= dl@ + ul@);
    }
    let ghost opseq = ops@;
    let mut cur: I = *inst;
    let mut ok = true;
    proof {
        assert forall|x: u32|
            (inst.spec_uses().contains(x) || inst.spec_defs().contains(x)) implies x < preg_count
            || (exists|m: int| 0 <= m < opseq.len() && opseq[m] == x) by {
            if inst.spec_uses().contains(x) {
                let j = choose|j: int| 0 <= j < ul@.len() && ul@[j] == x;
                assert(opseq[dl@.len() + j] == x);
            } else {
                let j = choose|j: int| 0 <= j < dl@.len() && dl@[j] == x;
                assert(opseq[j] == x);
            }
        }
    }
    let mut oi: usize = 0;
    while oi < ops.len()
        invariant
            0 <= oi <= opseq.len(),
            ops@ == opseq,
            forall|x: u32|
                (inst.spec_uses().contains(x) || inst.spec_defs().contains(x)) ==> x < preg_count
                    || (exists|m: int| 0 <= m < opseq.len() && opseq[m] == x),
            cur.spec_targets() == inst.spec_targets(),
            cur.spec_is_branch() == inst.spec_is_branch(),
            cur.spec_is_ret() == inst.spec_is_ret(),
            ok ==> forall|x: u32|
                (cur.spec_uses().contains(x) || cur.spec_defs().contains(x)) ==> x < preg_count
                    || (exists|m: int| oi <= m < opseq.len() && opseq[m] == x),
            ok ==> cur.spec_uses().len() == inst.spec_uses().len(),
            ok ==> cur.spec_defs().len() == inst.spec_defs().len(),
            ok ==> forall|m: int|
                0 <= m < oi && opseq[m] >= preg_count ==> slot_resolvable(
                    slots@,
                    #[trigger] opseq[m],
                    preg_count,
                ),
            ok ==> forall|j: int|
                0 <= j < inst.spec_uses().len() ==> #[trigger] cur.spec_uses()[j] == (
                if inst.spec_uses()[j] >= preg_count && op_seen(
                    opseq,
                    oi as int,
                    inst.spec_uses()[j],
                ) {
                    resolved_of(slots@, inst.spec_uses()[j], preg_count)
                } else {
                    inst.spec_uses()[j]
                }),
            ok ==> forall|j: int|
                0 <= j < inst.spec_defs().len() ==> #[trigger] cur.spec_defs()[j] == (
                if inst.spec_defs()[j] >= preg_count && op_seen(
                    opseq,
                    oi as int,
                    inst.spec_defs()[j],
                ) {
                    resolved_of(slots@, inst.spec_defs()[j], preg_count)
                } else {
                    inst.spec_defs()[j]
                }),
            !ok ==> exists|m: int|
                0 <= m < opseq.len() && opseq[m] >= preg_count && !slot_resolvable(
                    slots@,
                    opseq[m],
                    preg_count,
                ),
        decreases opseq.len() - oi,
    {
        let op = ops[oi];
        let ghost prev = cur;
        let ghost ok_prev = ok;
        if op >= preg_count {
            let idx = (op - preg_count) as usize;
            let mut resolved: Option<Reg> = None;
            if idx < slots.len() {
                match slots[idx] {
                    Some(AllocatedSlot::Reg(p)) => {
                        if p < preg_count {
                            resolved = Some(p);
                        }
                    },
                    _ => {},
                }
            }
            match resolved {
                Some(p) => {
                    cur = cur.replace(op, p);
                    proof {
                        if ok {
                            assert forall|x: u32|
                                (cur.spec_uses().contains(x) || cur.spec_defs().contains(
                                    x,
                                )) implies x < preg_count || (exists|m: int|
                                oi + 1 <= m < opseq.len() && opseq[m] == x) by {
                                if x >= preg_count {
                                    if cur.spec_uses().contains(x) {
                                        let j = choose|j: int|
                                            0 <= j < cur.spec_uses().len() && cur.spec_uses()[j]
                                                == x;
                                        assert(cur.spec_uses()[j] == (if prev.spec_uses()[j] == op {
                                            p
                                        } else {
                                            prev.spec_uses()[j]
                                        }));
                                        assert(x != op && prev.spec_uses().contains(x));
                                    } else {
                                        let j = choose|j: int|
                                            0 <= j < cur.spec_defs().len() && cur.spec_defs()[j]
                                                == x;
                                        assert(cur.spec_defs()[j] == (if prev.spec_defs()[j] == op {
                                            p
                                        } else {
                                            prev.spec_defs()[j]
                                        }));
                                        assert(x != op && prev.spec_defs().contains(x));
                                    }
                                    let m = choose|m: int|
                                        oi <= m < opseq.len() && opseq[m] == x;
                                    assert(m != oi);
                                }
                            }
                            assert(slot_resolvable(slots@, op, preg_count));
                            assert(resolved_of(slots@, op, preg_count) == p);
                            assert forall|j: int|
                                0 <= j < inst.spec_uses().len() implies #[trigger] cur.spec_uses()[j]
                                == (
                                if inst.spec_uses()[j] >= preg_count && op_seen(
                                    opseq,
                                    oi + 1,
                                    inst.spec_uses()[j],
                                ) {
                                    resolved_of(slots@, inst.spec_uses()[j], preg_count)
                                } else {
                                    inst.spec_uses()[j]
                                }) by {
                                let x = inst.spec_uses()[j];
                                assert(cur.spec_uses()[j] == (if prev.spec_uses()[j] == op {
                                    p
                                } else {
                                    prev.spec_uses()[j]
                                }));
                                if x >= preg_count && op_seen(opseq, oi as int, x) {
                                    let m = choose|m: int| 0 <= m < oi && opseq[m] == x;
                                    assert(slot_resolvable(slots@, x, preg_count));
                                    assert(op_seen(opseq, oi + 1, x)) by {
                                        assert(opseq[m] == x);
                                    }
                                } else if x >= preg_count && x == op {
                                    assert(op_seen(opseq, oi + 1, x)) by {
                                        assert(opseq[oi as int] == x);
                                    }
                                } else if x >= preg_count {
                                    assert(!op_seen(opseq, oi + 1, x)) by {
                                        if op_seen(opseq, oi + 1, x) {
                                            let m = choose|m: int|
                                                0 <= m < oi + 1 && opseq[m] == x;
                                            assert(m == oi);
                                        }
                                    }
                                }
                            }
                            assert forall|j: int|
                                0 <= j < inst.spec_defs().len() implies #[trigger] cur.spec_defs()[j]
                                == (
                                if inst.spec_defs()[j] >= preg_count && op_seen(
                                    opseq,
                                    oi + 1,
                                    inst.spec_defs()[j],
                                ) {
                                    resolved_of(slots@, inst.spec_defs()[j], preg_count)
                                } else {
                                    inst.spec_defs()[j]
                                }) by {
                                let x = inst.spec_defs()[j];
                                assert(cur.spec_defs()[j] == (if prev.spec_defs()[j] == op {
                                    p
                                } else {
                                    prev.spec_defs()[j]
                                }));
                                if x >= preg_count && op_seen(opseq, oi as int, x) {
                                    let m = choose|m: int| 0 <= m < oi && opseq[m] == x;
                                    assert(slot_resolvable(slots@, x, preg_count));
                                    assert(op_seen(opseq, oi + 1, x)) by {
                                        assert(opseq[m] == x);
                                    }
                                } else if x >= preg_count && x == op {
                                    assert(op_seen(opseq, oi + 1, x)) by {
                                        assert(opseq[oi as int] == x);
                                    }
                                } else if x >= preg_count {
                                    assert(!op_seen(opseq, oi + 1, x)) by {
                                        if op_seen(opseq, oi + 1, x) {
                                            let m = choose|m: int|
                                                0 <= m < oi + 1 && opseq[m] == x;
                                            assert(m == oi);
                                        }
                                    }
                                }
                            }
                        }
                    }
                },
                None => {
                    ok = false;
                    proof {
                        assert(opseq[oi as int] == op);
                        assert(!slot_resolvable(slots@, op, preg_count));
                    }
                },
            }
        } else {
            proof {
                if ok {
                    assert forall|x: u32|
                        (cur.spec_uses().contains(x) || cur.spec_defs().contains(x)) implies x
                        < preg_count || (exists|m: int|
                        oi + 1 <= m < opseq.len() && opseq[m] == x) by {
                        if x >= preg_count {
                            let m = choose|m: int| oi <= m < opseq.len() && opseq[m] == x;
                            assert(m != oi);
                        }
                    }
                    assert forall|x: u32|
                        x >= preg_count implies op_seen(opseq, oi + 1, x) == op_seen(
                        opseq,
                        oi as int,
                        x,
                    ) by {
                        if op_seen(opseq, oi + 1, x) && !op_seen(opseq, oi as int, x) {
                            let m = choose|m: int| 0 <= m < oi + 1 && opseq[m] == x;
                            assert(m == oi);
                        }
                        if op_seen(opseq, oi as int, x) {
                            let m = choose|m: int| 0 <= m < oi && opseq[m] == x;
                            assert(op_seen(opseq, oi + 1, x)) by {
                                assert(opseq[m] == x);
                            }
                        }
                    }
                }
            }
        }
        oi += 1;
    }
    proof {
        if ok {
            assert forall|j: int|
                0 <= j < cur.spec_uses().len() implies #[trigger] cur.spec_uses()[j]
                < preg_count by {
                let x = cur.spec_uses()[j];
                assert(cur.spec_uses().contains(x));
            }
            assert forall|j: int|
                0 <= j < cur.spec_defs().len() implies #[trigger] cur.spec_defs()[j]
                < preg_count by {
                let x = cur.spec_defs()[j];
                assert(cur.spec_defs().contains(x));
            }
            assert forall|j: int|
                0 <= j < inst.spec_uses().len() implies #[trigger] cur.spec_uses()[j]
                == resolved_of(slots@, inst.spec_uses()[j], preg_count) by {
                let x = inst.spec_uses()[j];
                if x >= preg_count {
                    assert(inst.spec_uses().contains(x));
                    assert(op_seen(opseq, opseq.len() as int, x));
                }
            }
            assert(cur.spec_uses() =~= inst.spec_uses().map_values(
                |x: u32| resolved_of(slots@, x, preg_count),
            ));
            assert forall|j: int|
                0 <= j < inst.spec_defs().len() implies #[trigger] cur.spec_defs()[j]
                == resolved_of(slots@, inst.spec_defs()[j], preg_count) by {
                let x = inst.spec_defs()[j];
                if x >= preg_count {
                    assert(inst.spec_defs().contains(x));
                    assert(op_seen(opseq, opseq.len() as int, x));
                }
            }
            assert(cur.spec_defs() =~= inst.spec_defs().map_values(
                |x: u32| resolved_of(slots@, x, preg_count),
            ));
        } else {
            let m = choose|m: int|
                0 <= m < opseq.len() && opseq[m] >= preg_count && !slot_resolvable(
                    slots@,
                    opseq[m],
                    preg_count,
                );
            assert(inst.spec_uses().contains(opseq[m]) || inst.spec_defs().contains(opseq[m]))
                by {
                if m < dl@.len() {
                    assert(dl@[m] == opseq[m]);
                } else {
                    assert(ul@[m - dl@.len()] == opseq[m]);
                }
            }
        }
    }
    (cur, ok)
}

/// Every decision names a virtual register of `f`, runs forward from a
/// real instruction position, uses a physical register below the
/// target's count whenever it uses one, and two different decisions for
/// one register never overlap.
pub open spec fn decisions_ok<I: Inst>(ra: Seq<RegAllocResult>, f: Func<I>, preg: u32) -> bool {
    &&& forall|k: int|
        0 <= k < ra.len() ==> preg <= (#[trigger] ra[k]).range.reg < f.regs_count_spec()
    &&& forall|k: int|
        0 <= k < ra.len() && (#[trigger] ra[k]).allocated_slot is Reg
            ==> ra[k].allocated_slot->Reg_0 < preg
    &&& forall|k: int| 0 <= k < ra.len() ==> pp_le((#[trigger] ra[k]).range.start, ra[k].range.end)
    &&& forall|k: int|
        0 <= k < ra.len() ==> (#[trigger] ra[k]).range.start.block.0 < f.num_blocks()
            && ra[k].range.start.inst_index < f.insts_of(ra[k].range.start.block.0 as int).len()
    &&& forall|k1: int, k2: int|
        0 <= k1 < ra.len() && 0 <= k2 < ra.len() && (#[trigger] ra[k1]).range.reg == (
        #[trigger] ra[k2]).range.reg && ra[k1] != ra[k2] ==> !ranges_overlap(
            ra[k1].range,
            ra[k2].range,
        )
}

/// The program point of instruction `i` in block `b`.
pub open spec fn point_of(b: int, i: int) -> ProgramPoint {
    ProgramPoint { block: crate::tir::block::Block(b as u16), inst_index: i as u32 }
}

/// Every virtual-register operand of `f` lies inside some decision that
/// spans its program point and placed the register in a physical one.
pub open spec fn operands_covered<I: Inst>(ra: Seq<RegAllocResult>, f: Func<I>, preg: u32) -> bool {
    forall|b: int, i: int, x: u32|
        #![trigger f.insts_of(b)[i].spec_uses().contains(x)]
        #![trigger f.insts_of(b)[i].spec_defs().contains(x)]
        0 <= b < f.num_blocks() && 0 <= i < f.insts_of(b).len() && (f.insts_of(
            b,
        )[i].spec_uses().contains(x) || f.insts_of(b)[i].spec_defs().contains(x)) && x >= preg
            ==> exists|k: int|
            0 <= k < ra.len() && (#[trigger] ra[k]).range.reg == x && pp_le(
                ra[k].range.start,
                point_of(b, i),
            ) && pp_le(point_of(b, i), ra[k].range.end) && ra[k].allocated_slot is Reg
}

/// No instruction of `f` reads or writes a register at or above `preg`.
pub open spec fn all_operands_physical<I: Inst>(f: Func<I>, preg: u32) -> bool {
    forall|b: int, i: int, j: int|
        0 <= b < f.num_blocks() && 0 <= i < f.insts_of(b).len() && 0 <= j < f.insts_of(
            b,
        )[i].spec_uses().len() ==> #[trigger] f.insts_of(b)[i].spec_uses()[j] < preg
}

/// The same, for written registers.
pub open spec fn all_defs_physical<I: Inst>(f: Func<I>, preg: u32) -> bool {
    forall|b: int, i: int, j: int|
        0 <= b < f.num_blocks() && 0 <= i < f.insts_of(b).len() && 0 <= j < f.insts_of(
            b,
        )[i].spec_defs().len() ==> #[trigger] f.insts_of(b)[i].spec_defs()[j] < preg
}

/// Decision soundness and coverage carry over to any rearrangement of the
/// decision list.
proof fn lemma_decisions_perm<I: Inst>(
    ra2: Seq<RegAllocResult>,
    ra: Seq<RegAllocResult>,
    f: Func<I>,
    preg: u32,
)
    requires
        decisions_ok(ra, f, preg),
        operands_covered(ra, f, preg),
        ra2.to_multiset() == ra.to_multiset(),
    ensures
        decisions_ok(ra2, f, preg),
        operands_covered(ra2, f, preg),
{
    broadcast use vstd::seq_lib::group_to_multiset_ensures;

    assert forall|k: int| 0 <= k < ra2.len() implies ra.contains(#[trigger] ra2[k]) by {
        assert(ra2.contains(ra2[k]));
        assert(ra2.to_multiset().count(ra2[k]) > 0);
    }
    assert forall|k: int|
        0 <= k < ra2.len() implies preg <= (#[trigger] ra2[k]).range.reg < f.regs_count_spec()
        && (ra2[k].allocated_slot is Reg ==> ra2[k].allocated_slot->Reg_0 < preg) && pp_le(
        ra2[k].range.start,
        ra2[k].range.end,
    ) && ra2[k].range.start.block.0 < f.num_blocks() && ra2[k].range.start.inst_index
        < f.insts_of(ra2[k].range.start.block.0 as int).len() by {
        let k0 = choose|k0: int| 0 <= k0 < ra.len() && ra[k0] == ra2[k];
    }
    assert forall|k1: int, k2: int|
        0 <= k1 < ra2.len() && 0 <= k2 < ra2.len() && (#[trigger] ra2[k1]).range.reg == (
        #[trigger] ra2[k2]).range.reg && ra2[k1] != ra2[k2] implies !ranges_overlap(
        ra2[k1].range,
        ra2[k2].range,
    ) by {
        let j1 = choose|j1: int| 0 <= j1 < ra.len() && ra[j1] == ra2[k1];
        let j2 = choose|j2: int| 0 <= j2 < ra.len() && ra[j2] == ra2[k2];
    }
    assert forall|b: int, i: int, x: u32|
        #![trigger f.insts_of(b)[i].spec_uses().contains(x)]
        #![trigger f.insts_of(b)[i].spec_defs().contains(x)]
        0 <= b < f.num_blocks() && 0 <= i < f.insts_of(b).len() && (f.insts_of(
            b,
        )[i].spec_uses().contains(x) || f.insts_of(b)[i].spec_defs().contains(x)) && x
        >= preg implies exists|k: int|
        0 <= k < ra2.len() && (#[trigger] ra2[k]).range.reg == x && pp_le(
            ra2[k].range.start,
            point_of(b, i),
        ) && pp_le(point_of(b, i), ra2[k].range.end) && ra2[k].allocated_slot is Reg by {
        let k0 = choose|k0: int|
            0 <= k0 < ra.len() && (#[trigger] ra[k0]).range.reg == x && pp_le(
                ra[k0].range.start,
                point_of(b, i),
            ) && pp_le(point_of(b, i), ra[k0].range.end) && ra[k0].allocated_slot is Reg;
        assert(ra.contains(ra[k0]));
        assert(ra.to_multiset().count(ra[k0]) > 0);
        assert(ra2.contains(ra[k0]));
        let k = choose|k: int| 0 <= k < ra2.len() && ra2[k] == ra[k0];
        assert(ra2[k].range.reg == x);
    }
}

/// Applies the allocator's decisions to the function: walks the blocks in
/// program order, binds each range's slot when its start point is
/// reached, and rewrites every instruction's register operands to the
/// resolved physical registers. Block count, branch targets and
/// terminator classification are left exactly as they were, and no
/// instruction refers to a virtual register afterwards.
#[verifier::rlimit(100)]
#[verifier::spinoff_prover]
#[verifier::loop_isolation(false)]
pub fn apply_regalloc_result<I: Inst>(func: &mut Func<I>, ra_intervals: Vec<RegAllocResult>)
    requires
        old(func).num_blocks() <= u16::MAX,
        forall|b: int|
            0 <= b < old(func).num_blocks() ==> (#[trigger] old(func).insts_of(b)).len()
                < u32::MAX,
        decisions_ok(ra_intervals@, *old(func), I::spec_preg_count()),
        operands_covered(ra_intervals@, *old(func), I::spec_preg_count()),
    ensures
        control_flow_preserved(*final(func), *old(func)),
        all_operands_physical(*final(func), I::spec_preg_count()),
        all_defs_physical(*final(func), I::spec_preg_count()),
{
    let preg_count = I::preg_count();
    let regs_count = func.get_regs_count();
    let n_virt = if regs_count > preg_count as usize {
        regs_count - preg_count as usize
    } else {
        0
    };
    let mut slots: Vec<Option<AllocatedSlot>> = Vec::new();
    let mut si: usize = 0;
    while si < n_virt
        invariant
            slots@.len() == si,
            0 <= si <= n_virt,
            forall|v: int| 0 <= v < si ==> (#[trigger] slots@[v]) is None,
        decreases n_virt - si,
    {
        slots.push(None);
        si += 1;
    }
    let mut iv = ra_intervals;
    let ghost orig_iv = iv@;
    sort_results(&mut iv);
    let ghost pre_func = *func;
    proof {
        assert(pre_func == *old(func));
        lemma_decisions_perm(iv@, orig_iv, pre_func, preg_count);
    }
    let ghost ivs = iv@;
    let mut ptr: usize = 0;
    let nblocks = func.blocks_count();
    let mut b: usize = 0;
    while b < nblocks
        invariant
            nblocks == pre_func.num_blocks(),
            0 <= b <= nblocks,
            func.num_blocks() == pre_func.num_blocks(),
            func.regs_count_spec() == pre_func.regs_count_spec(),
            regs_count == pre_func.regs_count_spec(),
            slots@.len() == n_virt,
            iv@ == ivs,
            0 <= ptr <= ivs.len(),
            forall|k: int| ptr <= k < ivs.len() ==> (#[trigger] ivs[k]).range.start.block.0 >= b,
            forall|k: int|
                0 <= k < ptr ==> pp_lt((#[trigger] ivs[k]).range.start, point_of(b as int, 0)),
            forall|v: u32|
                preg_count <= v < regs_count ==> ((#[trigger] slots@[v - preg_count]) is None && (
                forall|k: int| 0 <= k < ptr ==> (#[trigger] ivs[k]).range.reg != v)) || (exists|
                    k: int,
                |
                    0 <= k < ptr && (#[trigger] ivs[k]).range.reg == v && slots@[v - preg_count]
                        == Some(ivs[k].allocated_slot) && (forall|k2: int|
                        0 <= k2 < ptr && (#[trigger] ivs[k2]).range.reg == v ==> k2 <= k)),
            forall|bb: int|
                b <= bb < nblocks ==> #[trigger] func.insts_of(bb) == pre_func.insts_of(bb),
            forall|bb: int|
                0 <= bb < b ==> (#[trigger] func.insts_of(bb)).len() == pre_func.insts_of(
                    bb,
                ).len(),
            forall|bb: int, i: int|
                0 <= bb < b && 0 <= i < pre_func.insts_of(bb).len() ==> (#[trigger] func.insts_of(
                    bb,
                )[i]).spec_targets() == pre_func.insts_of(bb)[i].spec_targets() && func.insts_of(
                    bb,
                )[i].spec_is_branch() == pre_func.insts_of(bb)[i].spec_is_branch()
                    && func.insts_of(bb)[i].spec_is_ret() == pre_func.insts_of(
                    bb,
                )[i].spec_is_ret(),
            forall|bb: int, i: int, j: int|
                0 <= bb < b && 0 <= i < pre_func.insts_of(bb).len() && 0 <= j < func.insts_of(
                    bb,
                )[i].spec_uses().len() ==> #[trigger] func.insts_of(bb)[i].spec_uses()[j]
                    < preg_count,
            forall|bb: int, i: int, j: int|
                0 <= bb < b && 0 <= i < pre_func.insts_of(bb).len() && 0 <= j < func.insts_of(
                    bb,
                )[i].spec_defs().len() ==> #[trigger] func.insts_of(bb)[i].spec_defs()[j]
                    < preg_count,
        decreases nblocks - b,
    {
        let block = crate::tir::block::Block(b as u16);
        proof {
            assert(func.insts_of(b as int) == pre_func.insts_of(b as int));
            assert(pre_func.insts_of(b as int).len() < u32::MAX);
        }
        let blen = func.get_block_data(block).len();
        let mut new_block: crate::tir::block::BlockData<I> = crate::tir::block::BlockData::new();
        let mut idx: usize = 0;
        while idx < blen
            invariant
                0 <= idx <= blen,
                b < nblocks,
                block.0 == b,
                blen == pre_func.insts_of(b as int).len(),
                blen < u32::MAX,
                func.num_blocks() == pre_func.num_blocks(),
                func.regs_count_spec() == pre_func.regs_count_spec(),
                slots@.len() == n_virt,
                iv@ == ivs,
                0 <= ptr <= ivs.len(),
                forall|k: int|
                    ptr <= k < ivs.len() ==> !pp_lt(
                        (#[trigger] ivs[k]).range.start,
                        point_of(b as int, idx as int),
                    ),
                forall|k: int|
                    0 <= k < ptr ==> pp_le(
                        (#[trigger] ivs[k]).range.start,
                        point_of(b as int, idx as int),
                    ),
                forall|v: u32|
                    preg_count <= v < regs_count ==> ((#[trigger] slots@[v - preg_count]) is None
                        && (forall|k: int| 0 <= k < ptr ==> (#[trigger] ivs[k]).range.reg != v))
                        || (exists|k: int|
                        0 <= k < ptr && (#[trigger] ivs[k]).range.reg == v && slots@[v
                            - preg_count] == Some(ivs[k].allocated_slot) && (forall|k2: int|
                            0 <= k2 < ptr && (#[trigger] ivs[k2]).range.reg == v ==> k2 <= k)),
                func.insts_of(b as int) == pre_func.insts_of(b as int),
                forall|bb: int|
                    b <= bb < nblocks ==> #[trigger] func.insts_of(bb) == pre_func.insts_of(bb),
                forall|bb: int|
                    0 <= bb < b ==> (#[trigger] func.insts_of(bb)).len() == pre_func.insts_of(
                        bb,
                    ).len(),
                forall|bb: int, i: int|
                    0 <= bb < b && 0 <= i < pre_func.insts_of(bb).len() ==> (
                    #[trigger] func.insts_of(bb)[i]).spec_targets() == pre_func.insts_of(
                        bb,
                    )[i].spec_targets() && func.insts_of(bb)[i].spec_is_branch()
                        == pre_func.insts_of(bb)[i].spec_is_branch() && func.insts_of(
                        bb,
                    )[i].spec_is_ret() == pre_func.insts_of(bb)[i].spec_is_ret(),
                forall|bb: int, i: int, j: int|
                    0 <= bb < b && 0 <= i < pre_func.insts_of(bb).len() && 0 <= j
                        < func.insts_of(bb)[i].spec_uses().len() ==> #[trigger] func.insts_of(
                        bb,
                    )[i].spec_uses()[j] < preg_count,
                forall|bb: int, i: int, j: int|
                    0 <= bb < b && 0 <= i < pre_func.insts_of(bb).len() && 0 <= j
                        < func.insts_of(bb)[i].spec_defs().len() ==> #[trigger] func.insts_of(
                        bb,
                    )[i].spec_defs()[j] < preg_count,
                new_block@.len() == idx,
                forall|i: int|
                    0 <= i < idx ==> (#[trigger] new_block@[i]).spec_targets() == pre_func.insts_of(
                        b as int,
                    )[i].spec_targets() && new_block@[i].spec_is_branch() == pre_func.insts_of(
                        b as int,
                    )[i].spec_is_branch() && new_block@[i].spec_is_ret() == pre_func.insts_of(
                        b as int,
                    )[i].spec_is_ret(),
                forall|i: int, j: int|
                    0 <= i < idx && 0 <= j < new_block@[i].spec_uses().len()
                        ==> #[trigger] new_block@[i].spec_uses()[j] < preg_count,
                forall|i: int, j: int|
                    0 <= i < idx && 0 <= j < new_block@[i].spec_defs().len()
                        ==> #[trigger] new_block@[i].spec_defs()[j] < preg_count,
            decreases blen - idx,
        {
            let p = ProgramPoint { block, inst_index: idx as u32 };
            proof {
                assert(p == point_of(b as int, idx as int));
            }
            while ptr < iv.len()
                invariant
                    iv@ == ivs,
                    0 <= ptr <= ivs.len(),
                    slots@.len() == n_virt,
                    forall|k: int|
                        ptr <= k < ivs.len() ==> !pp_lt((#[trigger] ivs[k]).range.start, p),
                    forall|k: int|
                        0 <= k < ptr ==> pp_le((#[trigger] ivs[k]).range.start, p),
                    forall|v: u32|
                        preg_count <= v < regs_count ==> ((#[trigger] slots@[v - preg_count])
                            is None && (forall|k: int|
                            0 <= k < ptr ==> (#[trigger] ivs[k]).range.reg != v)) || (exists|
                            k: int,
                        |
                            0 <= k < ptr && (#[trigger] ivs[k]).range.reg == v && slots@[v
                                - preg_count] == Some(ivs[k].allocated_slot) && (forall|k2: int|
                                0 <= k2 < ptr && (#[trigger] ivs[k2]).range.reg == v ==> k2
                                    <= k)),
                decreases ivs.len() - ptr,
            {
                let interval = iv[ptr];
                if pp_le_pub(&interval.range.start, &p) && pp_le_pub(&p, &interval.range.end) {
                    let reg = interval.range.reg;
                    let ghost pre_slots = slots@;
                    if reg >= preg_count {
                        let sidx = (reg - preg_count) as usize;
                        if sidx < slots.len() {
                            slots[sidx] = Some(interval.allocated_slot);
                        }
                    }
                    proof {
                        assert(preg_count <= reg && reg < regs_count);
                        assert(reg - preg_count < n_virt);
                        assert forall|v: u32|
                            preg_count <= v < regs_count implies ((#[trigger] slots@[v
                            - preg_count]) is None && (forall|k: int|
                            0 <= k < ptr + 1 ==> (#[trigger] ivs[k]).range.reg != v)) || (exists|
                            k: int,
                        |
                            0 <= k < ptr + 1 && (#[trigger] ivs[k]).range.reg == v && slots@[v
                                - preg_count] == Some(ivs[k].allocated_slot) && (forall|k2: int|
                                0 <= k2 < ptr + 1 && (#[trigger] ivs[k2]).range.reg == v ==> k2
                                    <= k)) by {
                            if v == reg {
                                assert(ivs[ptr as int].range.reg == v);
                                assert(slots@[v - preg_count] == Some(
                                    ivs[ptr as int].allocated_slot,
                                ));
                            } else {
                                assert(slots@[v - preg_count] == pre_slots[v - preg_count]);
                            }
                        }
                    }
                    ptr += 1;
                } else {
                    break ;
                }
            }
            proof {
                assert forall|k: int|
                    ptr <= k < ivs.len() implies pp_lt(p, (#[trigger] ivs[k]).range.start) by {
                    assert(pp_le(ivs[ptr as int].range.start, ivs[k].range.start));
                    if !pp_lt(p, ivs[ptr as int].range.start) {
                        assert(pp_le(ivs[ptr as int].range.start, p));
                        assert(!pp_le(p, ivs[ptr as int].range.end));
                        assert(pp_le(ivs[ptr as int].range.start, ivs[ptr as int].range.end));
                    }
                }
            }
            let inst = *func.get_block_data(block).get(idx);
            proof {
                assert(inst == pre_func.insts_of(b as int)[idx as int]);
                assert forall|x: u32|
                    (inst.spec_uses().contains(x) || inst.spec_defs().contains(x)) && x
                        >= preg_count implies slot_resolvable(slots@, x, preg_count) by {
                    let kc = choose|kc: int|
                        0 <= kc < ivs.len() && (#[trigger] ivs[kc]).range.reg == x && pp_le(
                            ivs[kc].range.start,
                            point_of(b as int, idx as int),
                        ) && pp_le(point_of(b as int, idx as int), ivs[kc].range.end) && ivs[
                            kc
                        ].allocated_slot is Reg;
                    assert(kc < ptr) by {
                        if kc >= ptr {
                            assert(pp_lt(p, ivs[kc].range.start));
                        }
                    }
                    assert(preg_count <= x < regs_count);
                    let ks = choose|ks: int|
                        0 <= ks < ptr && (#[trigger] ivs[ks]).range.reg == x && slots@[x
                            - preg_count] == Some(ivs[ks].allocated_slot) && (forall|k2: int|
                            0 <= k2 < ptr && (#[trigger] ivs[k2]).range.reg == x ==> k2 <= ks);
                    assert(kc <= ks);
                    assert(pp_le(ivs[kc].range.start, ivs[ks].range.start));
                    assert(ivs[ks] == ivs[kc]) by {
                        if ivs[ks] != ivs[kc] {
                            assert(!ranges_overlap(ivs[ks].range, ivs[kc].range));
                            assert(pp_le(ivs[ks].range.start, p));
                            assert(pp_le(ivs[ks].range.start, ivs[ks].range.end));
                            assert(pp_le(ivs[kc].range.start, ivs[ks].range.start));
                            assert(pp_le(ivs[kc].range.start, ivs[ks].range.end));
                            assert(!pp_le(ivs[ks].range.start, ivs[kc].range.end));
                            assert(pp_lt(ivs[kc].range.end, ivs[ks].range.start));
                            assert(pp_le(p, ivs[kc].range.end));
                        }
                    }
                }
            }
            let resolved = resolve_inst(&inst, &slots, preg_count);
            proof {
                assert(resolved.1);
            }
            new_block.push(resolved.0);
            proof {
                assert forall|k: int|
                    0 <= k < ptr implies pp_le(
                    (#[trigger] ivs[k]).range.start,
                    point_of(b as int, idx + 1),
                ) by {
                    assert(pp_le(ivs[k].range.start, p));
                }
                assert forall|k: int|
                    ptr <= k < ivs.len() implies !pp_lt(
                    (#[trigger] ivs[k]).range.start,
                    point_of(b as int, idx + 1),
                ) by {
                    assert(pp_lt(p, ivs[k].range.start));
                }
            }
            idx += 1;
        }
        let ghost fpre = *func;
        let bd = func.get_block_data_mut(block);
        *bd = new_block;
        proof {
            assert(func.blocks_view() =~= fpre.blocks_view().update(
                b as int,
                func.blocks_view()[b as int],
            ));
            assert forall|bb: int|
                b + 1 <= bb < nblocks implies #[trigger] func.insts_of(bb) == pre_func.insts_of(
                bb,
            ) by {
                assert(func.insts_of(bb) == fpre.insts_of(bb));
            }
            assert forall|bb: int|
                0 <= bb < b + 1 implies (#[trigger] func.insts_of(bb)).len() == pre_func.insts_of(
                bb,
            ).len() by {
                if bb < b {
                    assert(func.insts_of(bb) == fpre.insts_of(bb));
                }
            }
            assert forall|bb: int, i: int|
                0 <= bb < b + 1 && 0 <= i < pre_func.insts_of(bb).len() implies (
            #[trigger] func.insts_of(bb)[i]).spec_targets() == pre_func.insts_of(
                bb,
            )[i].spec_targets() && func.insts_of(bb)[i].spec_is_branch() == pre_func.insts_of(
                bb,
            )[i].spec_is_branch() && func.insts_of(bb)[i].spec_is_ret() == pre_func.insts_of(
                bb,
            )[i].spec_is_ret() by {
                if bb < b {
                    assert(func.insts_of(bb) == fpre.insts_of(bb));
                }
            }
            assert forall|bb: int, i: int, j: int|
                0 <= bb < b + 1 && 0 <= i < pre_func.insts_of(bb).len() && 0 <= j < func.insts_of(
                    bb,
                )[i].spec_uses().len() implies #[trigger] func.insts_of(bb)[i].spec_uses()[j]
                < preg_count by {
                if bb < b {
                    assert(func.insts_of(bb) == fpre.insts_of(bb));
                }
            }
            assert forall|bb: int, i: int, j: int|
                0 <= bb < b + 1 && 0 <= i < pre_func.insts_of(bb).len() && 0 <= j < func.insts_of(
                    bb,
                )[i].spec_defs().len() implies #[trigger] func.insts_of(bb)[i].spec_defs()[j]
                < preg_count by {
                if bb < b {
                    assert(func.insts_of(bb) == fpre.insts_of(bb));
                }
            }
            assert forall|k: int|
                0 <= k < ptr implies pp_lt(
                (#[trigger] ivs[k]).range.start,
                point_of(b + 1, 0),
            ) by {
                assert(pp_le(ivs[k].range.start, point_of(b as int, blen as int)));
            }
            assert forall|k: int|
                ptr <= k < ivs.len() implies (#[trigger] ivs[k]).range.start.block.0 >= b + 1 by {
                assert(!pp_lt(ivs[k].range.start, point_of(b as int, blen as int)));
                assert(ivs[k].range.start.inst_index < pre_func.insts_of(
                    ivs[k].range.start.block.0 as int,
                ).len());
                if ivs[k].range.start.block.0 == b {
                    assert(ivs[k].range.start.inst_index >= blen);
                }
            }
        }
        b += 1;
    }
    proof {
        assert(control_flow_preserved(*func, pre_func));
        assert(all_operands_physical(*func, I::spec_preg_count()));
        assert(all_defs_physical(*func, I::spec_preg_count()));
    }
}

/// Sorts allocation results ascending by their range's start point,
/// keeping exactly the same decisions.
fn sort_results(v: &mut Vec<RegAllocResult>)
    ensures
        final(v)@.len() == old(v)@.len(),
        final(v)@.to_multiset() == old(v)@.to_multiset(),
        forall|k1: int, k2: int|
            0 <= k1 <= k2 < final(v)@.len() ==> pp_le(
                (#[trigger] final(v)@[k1]).range.start,
                (#[trigger] final(v)@[k2]).range.start,
            ),
{
    let mut out: Vec<RegAllocResult> = Vec::new();
    proof {
        broadcast use vstd::seq_lib::group_to_multiset_ensures;

        assert(out@.to_multiset().add(v@.to_multiset()) =~= old(v)@.to_multiset());
    }
    while v.len() > 0
        invariant
            out@.len() + v@.len() == old(v)@.len(),
            out@.to_multiset().add(v@.to_multiset()) == old(v)@.to_multiset(),
            forall|k1: int, k2: int|
                0 <= k1 <= k2 < out@.len() ==> pp_le(
                    (#[trigger] out@[k1]).range.start,
                    (#[trigger] out@[k2]).range.start,
                ),
            forall|k1: int, k2: int|
                0 <= k1 < out@.len() && 0 <= k2 < v@.len() ==> pp_le(
                    (#[trigger] out@[k1]).range.start,
                    (#[trigger] v@[k2]).range.start,
                ),
        decreases v@.len(),
    {
        let mut m: usize = 0;
        let mut j: usize = 1;
        while j < v.len()
            invariant
                v@.len() > 0,
                0 <= m < j <= v@.len(),
                forall|k: int|
                    0 <= k < j ==> pp_le(v@[m as int].range.start, (#[trigger] v@[k]).range.start),
            decreases v@.len() - j,
        {
            if pp_lt_pub(&v[j].range.start, &v[m].range.start) {
                m = j;
            }
            j += 1;
        }
        let ghost pre_v = v@;
        let ghost pre_out = out@;
        let x = v.remove(m);
        out.push(x);
        proof {
            broadcast use vstd::seq_lib::group_to_multiset_ensures;

            assert(v@.to_multiset() =~= pre_v.to_multiset().remove(x));
            assert(out@.to_multiset() =~= pre_out.to_multiset().insert(x));
            assert(pre_v.to_multiset().count(x) > 0) by {
                assert(pre_v[m as int] == x);
                assert(pre_v.contains(x));
            }
            assert(out@.to_multiset().add(v@.to_multiset()) =~= old(v)@.to_multiset());
            assert forall|k1: int, k2: int|
                0 <= k1 < out@.len() && 0 <= k2 < v@.len() implies pp_le(
                (#[trigger] out@[k1]).range.start,
                (#[trigger] v@[k2]).range.start,
            ) by {
                if k1 < pre_out.len() {
                    if k2 < m {
                        assert(v@[k2] == pre_v[k2]);
                    } else {
                        assert(v@[k2] == pre_v[k2 + 1]);
                    }
                } else {
                    assert(out@[k1] == x);
                    if k2 < m {
                        assert(v@[k2] == pre_v[k2]);
                    } else {
                        assert(v@[k2] == pre_v[k2 + 1]);
                    }
                }
            }
            assert forall|k1: int, k2: int|
                0 <= k1 <= k2 < out@.len() implies pp_le(
                (#[trigger] out@[k1]).range.start,
                (#[trigger] out@[k2]).range.start,
            ) by {
                if k2 == pre_out.len() && k1 < k2 {
                    assert(pp_le(pre_out[k1].range.start, pre_v[m as int].range.start));
                }
            }
        }
    }
    *v = out;
}

} // verus!
