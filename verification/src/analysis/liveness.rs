use vstd::prelude::*;

use vstd::multiset::Multiset;

use crate::support::bitset::FixedBitSet;
use crate::support::slotmap::Key;
use crate::support::slotmap::SecondaryMap;
use crate::tir::block::Block;
use crate::tir::cfg::CFG;
use crate::tir::func::Func;
use crate::tir::func::Reg;
use crate::tir::inst::Inst;

verus! {

/// A position in a function: a block and an instruction index inside it.
/// Points are totally ordered, first by block, then by index.
#[derive(Debug, Clone, Copy, PartialEq, Eq, Structural, Hash)]
pub struct ProgramPoint {
    pub block: Block,
    pub inst_index: u32,
}

/// A contiguous span of program points over which a register's value must
/// be preserved.
#[derive(Debug, Clone, Copy, PartialEq, Eq, Structural, Hash)]
pub struct LiveRange {
    pub reg: Reg,
    pub start: ProgramPoint,
    pub end: ProgramPoint,
}

/// The total order on program points.
pub open spec fn pp_le(a: ProgramPoint, b: ProgramPoint) -> bool {
    a.block.0 < b.block.0 || (a.block.0 == b.block.0 && a.inst_index <= b.inst_index)
}

/// Strict order on program points.
pub open spec fn pp_lt(a: ProgramPoint, b: ProgramPoint) -> bool {
    a.block.0 < b.block.0 || (a.block.0 == b.block.0 && a.inst_index < b.inst_index)
}

/// The total order used to sort live ranges: by start point, then end
/// point, then register id.
pub open spec fn range_le(a: LiveRange, b: LiveRange) -> bool {
    if a.start != b.start {
        pp_lt(a.start, b.start)
    } else if a.end != b.end {
        pp_lt(a.end, b.end)
    } else {
        a.reg <= b.reg
    }
}

/// Whether `s` is sorted by `range_le`.
pub open spec fn ranges_sorted(s: Seq<LiveRange>) -> bool {
    forall|k1: int, k2: int| 0 <= k1 <= k2 < s.len() ==> range_le(#[trigger] s[k1], #[trigger] s[k2])
}

/// A well-formed range list for register `reg`: every range carries that
/// register, runs forward, is sorted by start, and consecutive ranges are
/// strictly separated, so no two ranges of one register overlap.
pub open spec fn ranges_wf(s: Seq<LiveRange>, reg: u32) -> bool {
    &&& forall|k: int| 0 <= k < s.len() ==> (#[trigger] s[k]).reg == reg
    &&& forall|k: int| 0 <= k < s.len() ==> pp_le((#[trigger] s[k]).start, s[k].end)
    &&& forall|k: int| 0 <= k < s.len() - 1 ==> pp_lt((#[trigger] s[k]).end, s[k + 1].start)
    &&& ranges_sorted(s)
}

/// No two ranges of a well-formed list share a program point.
pub proof fn lemma_ranges_disjoint(s: Seq<LiveRange>, reg: u32, k1: int, k2: int, p: ProgramPoint)
    requires
        ranges_wf(s, reg),
        0 <= k1 < k2 < s.len(),
        pp_le(s[k1].start, p) && pp_le(p, s[k1].end),
    ensures
        !(pp_le(s[k2].start, p) && pp_le(p, s[k2].end)),
    decreases k2 - k1,
{
    if k2 == k1 + 1 {
        assert(pp_lt(s[k1].end, s[k2].start));
    } else {
        lemma_ranges_disjoint(s, reg, k2 - 1, k2, s[k2 - 1].start);
        assert(pp_lt(s[k2 - 1].end, s[k2].start));
        assert(pp_le(s[k1].end, s[k2 - 1].end)) by {
            assert(range_le(s[k1], s[k2 - 1]));
            assert(pp_lt(s[k1].end, s[k2 - 1].start) || k1 == k2 - 1);
            assert(pp_le(s[k2 - 1].start, s[k2 - 1].end));
        }
    }
}

/// Any two positions of a well-formed range list are strictly separated:
/// the earlier range ends before the later one starts.
pub proof fn lemma_wf_separated(s: Seq<LiveRange>, reg: u32, k1: int, k2: int)
    requires
        ranges_wf(s, reg),
        0 <= k1 < k2 < s.len(),
    ensures
        pp_lt(s[k1].end, s[k2].start),
{
    assert(pp_lt(s[k1].end, s[k1 + 1].start));
    if k1 + 1 < k2 {
        assert(range_le(s[k1 + 1], s[k2]));
        assert(pp_le(s[k1 + 1].start, s[k2].start)) by {
            if s[k1 + 1].start != s[k2].start {
                assert(pp_lt(s[k1 + 1].start, s[k2].start));
            }
        }
    }
}

/// A well-formed range list repeats no range.
proof fn lemma_wf_no_duplicates(s: Seq<LiveRange>, reg: u32)
    requires
        ranges_wf(s, reg),
    ensures
        s.no_duplicates(),
{
    assert forall|i: int, j: int|
        0 <= i < s.len() && 0 <= j < s.len() && i != j implies s[i] != s[j] by {
        if i < j {
            lemma_wf_separated(s, reg, i, j);
        } else {
            lemma_wf_separated(s, reg, j, i);
        }
        assert(pp_le(s[i].start, s[i].end));
    }
}

/// Whether `a` is at or before `b`.
pub fn pp_le_pub(a: &ProgramPoint, b: &ProgramPoint) -> (r: bool)
    ensures
        r == pp_le(*a, *b),
{
    a.block.0 < b.block.0 || (a.block.0 == b.block.0 && a.inst_index <= b.inst_index)
}

/// Whether `a` is strictly before `b`.
pub fn pp_lt_pub(a: &ProgramPoint, b: &ProgramPoint) -> (r: bool)
    ensures
        r == pp_lt(*a, *b),
{
    a.block.0 < b.block.0 || (a.block.0 == b.block.0 && a.inst_index < b.inst_index)
}

fn pp_eq_exec(a: &ProgramPoint, b: &ProgramPoint) -> (r: bool)
    ensures
        r == (*a == *b),
{
    a.block.0 == b.block.0 && a.inst_index == b.inst_index
}

fn range_le_exec(a: &LiveRange, b: &LiveRange) -> (r: bool)
    ensures
        r == range_le(*a, *b),
{
    if !pp_eq_exec(&a.start, &b.start) {
        pp_lt_pub(&a.start, &b.start)
    } else if !pp_eq_exec(&a.end, &b.end) {
        pp_lt_pub(&a.end, &b.end)
    } else {
        a.reg <= b.reg
    }
}

/// Sorts a range list by start point, end point and register id, keeping
/// exactly the same ranges.
fn sort_ranges(v: &mut Vec<LiveRange>)
    ensures
        ranges_sorted(final(v)@),
        final(v)@.to_multiset() == old(v)@.to_multiset(),
        final(v)@.len() == old(v)@.len(),
{
    let mut out: Vec<LiveRange> = Vec::new();
    proof {
        broadcast use vstd::seq_lib::group_to_multiset_ensures;

        assert(out@.to_multiset().add(v@.to_multiset()) =~= old(v)@.to_multiset());
    }
    while v.len() > 0
        invariant
            out@.to_multiset().add(v@.to_multiset()) == old(v)@.to_multiset(),
            out@.len() + v@.len() == old(v)@.len(),
            ranges_sorted(out@),
            forall|k1: int, k2: int|
                0 <= k1 < out@.len() && 0 <= k2 < v@.len() ==> range_le(
                    #[trigger] out@[k1],
                    #[trigger] v@[k2],
                ),
        decreases v@.len(),
    {
        let mut m: usize = 0;
        let mut j: usize = 1;
        while j < v.len()
            invariant
                v@.len() > 0,
                0 <= m < j <= v@.len(),
                forall|k: int| 0 <= k < j ==> range_le(v@[m as int], #[trigger] v@[k]),
            decreases v@.len() - j,
        {
            if range_le_exec(&v[j], &v[m]) {
                proof {
                    assert forall|k: int| 0 <= k < j + 1 implies range_le(
                        v@[j as int],
                        #[trigger] v@[k],
                    ) by {
                        lemma_range_le_total(v@[j as int], v@[m as int]);
                        if k < j {
                            lemma_range_le_trans(v@[j as int], v@[m as int], v@[k]);
                        }
                    }
                }
                m = j;
            } else {
                proof {
                    lemma_range_le_total(v@[j as int], v@[m as int]);
                }
            }
            j += 1;
        }
        let ghost pre_v = v@;
        let ghost pre_out = out@;
        let x = v.remove(m);
        out.push(x);
        proof {
            broadcast use vstd::seq_lib::group_to_multiset_ensures;

            assert(v@.to_multiset() =~= pre_v.to_multiset().remove(x));
            assert(out@.to_multiset() =~= pre_out.to_multiset().insert(x));
            assert(pre_v.to_multiset().count(x) > 0) by {
                assert(pre_v[m as int] == x);
                assert(pre_v.contains(x));
            }
            assert(out@.to_multiset().add(v@.to_multiset()) =~= old(v)@.to_multiset());
            assert forall|k1: int, k2: int|
                0 <= k1 < out@.len() && 0 <= k2 < v@.len() implies range_le(
                #[trigger] out@[k1],
                #[trigger] v@[k2],
            ) by {
                if k1 < pre_out.len() {
                    if k2 < m {
                        assert(v@[k2] == pre_v[k2]);
                    } else {
                        assert(v@[k2] == pre_v[k2 + 1]);
                    }
                } else {
                    assert(out@[k1] == x);
                    if k2 < m {
                        assert(v@[k2] == pre_v[k2]);
                        assert(range_le(x, pre_v[k2]));
                    } else {
                        assert(v@[k2] == pre_v[k2 + 1]);
                        assert(range_le(x, pre_v[k2 + 1]));
                    }
                }
            }
            assert forall|k1: int, k2: int|
                0 <= k1 <= k2 < out@.len() implies range_le(
                #[trigger] out@[k1],
                #[trigger] out@[k2],
            ) by {
                if k2 < pre_out.len() {
                    assert(range_le(pre_out[k1], pre_out[k2]));
                } else if k1 < pre_out.len() {
                    assert(range_le(pre_out[k1], pre_v[m as int]));
                } else {
                    lemma_range_le_total(x, x);
                }
            }
        }
    }
    *v = out;
}

/// `range_le` is transitive.
proof fn lemma_range_le_trans(a: LiveRange, b: LiveRange, c: LiveRange)
    requires
        range_le(a, b),
        range_le(b, c),
    ensures
        range_le(a, c),
{
}

/// `range_le` is a total order.
proof fn lemma_range_le_total(a: LiveRange, b: LiveRange)
    ensures
        range_le(a, b) || range_le(b, a),
        range_le(a, b) && range_le(b, a) ==> a == b,
{
}

/// Merges a sorted range list: a range that starts no later than the end
/// of the running range, or that starts at index zero of a block while
/// the running range reaches its block's instruction count, is coalesced
/// into it.
fn merge_one_list<I: Inst>(func: &Func<I>, ranges: &mut Vec<LiveRange>, Ghost(reg): Ghost<u32>)
    requires
        forall|k: int|
            0 <= k < old(ranges)@.len() ==> (#[trigger] old(ranges)@[k]).reg == reg && pp_le(
                old(ranges)@[k].start,
                old(ranges)@[k].end,
            ) && old(ranges)@[k].end.block.0 < func.num_blocks(),
    ensures
        ranges_wf(final(ranges)@, reg),
        forall|k: int|
            0 <= k < final(ranges)@.len() ==> (#[trigger] final(ranges)@[k]).end.block.0
                < func.num_blocks(),
        final(ranges)@.len() == 0 ==> old(ranges)@.len() == 0,
{
    sort_ranges(ranges);
    proof {
        assert forall|k: int|
            0 <= k < ranges@.len() implies (#[trigger] ranges@[k]).reg == reg && pp_le(
            ranges@[k].start,
            ranges@[k].end,
        ) && ranges@[k].end.block.0 < func.num_blocks() by {
            assert(ranges@.to_multiset().count(ranges@[k]) > 0) by {
                ranges@.to_multiset_ensures();
            }
            assert(old(ranges)@.to_multiset().count(ranges@[k]) > 0);
            assert(old(ranges)@.contains(ranges@[k])) by {
                old(ranges)@.to_multiset_ensures();
            }
            let k0 = choose|k0: int|
                0 <= k0 < old(ranges)@.len() && old(ranges)@[k0] == ranges@[k];
        }
    }
    if ranges.len() == 0 {
        return ;
    }
    let ghost sorted = ranges@;
    let mut merged: Vec<LiveRange> = Vec::new();
    let mut current = ranges[0];
    let mut idx: usize = 1;
    let n = ranges.len();
    while idx < n
        invariant
            n == ranges@.len(),
            ranges@ == sorted,
            ranges_sorted(sorted),
            forall|k: int|
                0 <= k < sorted.len() ==> (#[trigger] sorted[k]).reg == reg && pp_le(
                    sorted[k].start,
                    sorted[k].end,
                ) && sorted[k].end.block.0 < func.num_blocks(),
            1 <= idx <= n,
            current.reg == reg,
            pp_le(current.start, current.end),
            current.end.block.0 < func.num_blocks(),
            pp_le(current.start, sorted[idx - 1].start),
            forall|k: int| idx <= k < n ==> range_le(current, #[trigger] sorted[k]) || pp_le(
                (#[trigger] sorted[k]).start,
                current.end,
            ),
            forall|k: int| idx <= k < n ==> pp_le(current.start, (#[trigger] sorted[k]).start),
            ranges_wf(merged@, reg),
            forall|k: int|
                0 <= k < merged@.len() ==> (#[trigger] merged@[k]).end.block.0 < func.num_blocks(),
            merged@.len() > 0 ==> pp_lt(merged@.last().end, current.start),
        decreases n - idx,
    {
        let next = ranges[idx];
        let block_data = func.get_block_data(current.end.block);
        let same = pp_le_pub(&next.start, &current.end) || (block_data.len() as u32
            >= current.end.inst_index && next.start.inst_index == 0);
        if same {
            proof {
                assert(pp_le(current.start, next.start));
                assert(pp_le(next.start, next.end));
            }
            current = LiveRange { reg: current.reg, start: current.start, end: next.end };
        } else {
            proof {
                assert(pp_lt(current.end, next.start));
            }
            merged.push(current);
            current = next;
        }
        proof {
            assert forall|k: int|
                idx + 1 <= k < n implies pp_le(current.start, (#[trigger] sorted[k]).start) by {
                assert(range_le(sorted[idx as int], sorted[k]));
            }
        }
        idx += 1;
    }
    merged.push(current);
    *ranges = merged;
}

} // verus!
verus! {

/// Every register an instruction of `f` reads or writes lies below the
/// function's register count.
pub open spec fn func_regs_in_range<I: Inst>(f: Func<I>) -> bool {
    &&& forall|b: int, i: int, k: int|
        0 <= b < f.num_blocks() && 0 <= i < f.insts_of(b).len() && 0 <= k < f.insts_of(
            b,
        )[i].spec_uses().len() ==> #[trigger] f.insts_of(b)[i].spec_uses()[k]
            < f.regs_count_spec()
    &&& forall|b: int, i: int, k: int|
        0 <= b < f.num_blocks() && 0 <= i < f.insts_of(b).len() && 0 <= k < f.insts_of(
            b,
        )[i].spec_defs().len() ==> #[trigger] f.insts_of(b)[i].spec_defs()[k]
            < f.regs_count_spec()
}

/// Some instruction before index `i` writes register `r`.
pub open spec fn defs_before<I: Inst>(insts: Seq<I>, i: int, r: u32) -> bool {
    exists|j: int| 0 <= j < i && (#[trigger] insts[j]).spec_defs().contains(r)
}

/// Register `r` has an upward-exposed use in `insts`: it is read at some
/// index before any earlier instruction writes it.
pub open spec fn upward_exposed<I: Inst>(insts: Seq<I>, r: u32) -> bool {
    exists|j: int|
        0 <= j < insts.len() && (#[trigger] insts[j]).spec_uses().contains(r) && !defs_before(
            insts,
            j,
            r,
        )
}

/// Some instruction of `insts` writes register `r`.
pub open spec fn defined_in<I: Inst>(insts: Seq<I>, r: u32) -> bool {
    exists|j: int| 0 <= j < insts.len() && (#[trigger] insts[j]).spec_defs().contains(r)
}

/// Backward dataflow liveness of one function: per-block live-in,
/// live-out, upward-exposed-use and definition sets, and the merged live
/// ranges of every register.
pub struct LivenessAnalysis {
    live_in: SecondaryMap<Block, FixedBitSet>,
    live_out: SecondaryMap<Block, FixedBitSet>,
    uses: SecondaryMap<Block, FixedBitSet>,
    defs: SecondaryMap<Block, FixedBitSet>,
    live_ranges: SecondaryMap<u32, Vec<LiveRange>>,
    vregs_count: usize,
}

impl LivenessAnalysis {
    /// The live-in set of block `b`.
    pub closed spec fn in_of(self, b: int) -> FixedBitSet {
        self.live_in@[b]
    }

    /// The live-out set of block `b`.
    pub closed spec fn out_of(self, b: int) -> FixedBitSet {
        self.live_out@[b]
    }

    /// The upward-exposed-use set of block `b`.
    pub closed spec fn uses_of(self, b: int) -> FixedBitSet {
        self.uses@[b]
    }

    /// The definition set of block `b`.
    pub closed spec fn defs_of(self, b: int) -> FixedBitSet {
        self.defs@[b]
    }

    /// The merged live ranges of register `r`.
    pub closed spec fn rng_of(self, r: int) -> Seq<LiveRange> {
        self.live_ranges@[r]@
    }

    /// How many blocks the analysis covers.
    pub closed spec fn nblocks_spec(self) -> int {
        self.live_in@.len() as int
    }

    /// How many register ids the analysis covers.
    pub closed spec fn nregs_spec(self) -> int {
        self.live_ranges@.len() as int
    }

    /// The word count every bit-set of the analysis is sized to.
    pub open spec fn nwords_spec(self) -> int {
        (self.nregs_spec() + 31) / 32
    }

    /// The four per-block maps cover the same blocks.
    pub closed spec fn lens_ok(self) -> bool {
        &&& self.live_out@.len() == self.nblocks_spec()
        &&& self.uses@.len() == self.nblocks_spec()
        &&& self.defs@.len() == self.nblocks_spec()
    }

    /// All four per-block sets exist for every block and share one size.
    pub open spec fn sets_wf(self) -> bool {
        &&& self.lens_ok()
        &&& forall|b: int|
            0 <= b < self.nblocks_spec() ==> (#[trigger] self.in_of(b)).nwords()
                == self.nwords_spec() && self.in_of(b).wf()
        &&& forall|b: int|
            0 <= b < self.nblocks_spec() ==> (#[trigger] self.out_of(b)).nwords()
                == self.nwords_spec() && self.out_of(b).wf()
        &&& forall|b: int|
            0 <= b < self.nblocks_spec() ==> (#[trigger] self.uses_of(b)).nwords()
                == self.nwords_spec() && self.uses_of(b).wf()
        &&& forall|b: int|
            0 <= b < self.nblocks_spec() ==> (#[trigger] self.defs_of(b)).nwords()
                == self.nwords_spec() && self.defs_of(b).wf()
    }

    /// The dataflow equation of block `b`: its live-in set equals its
    /// live-out set minus its definitions, joined with its upward-exposed
    /// uses.
    pub open spec fn eq_at(self, b: int) -> bool {
        forall|r: int|
            #![trigger self.in_of(b).has_spec(r)]
            self.in_of(b).has_spec(r) == ((self.out_of(b).has_spec(r) && !self.defs_of(
                b,
            ).has_spec(r)) || self.uses_of(b).has_spec(r))
    }

    /// Live-in stays below the dataflow equation's right-hand side.
    pub open spec fn mono_at(self, b: int) -> bool {
        forall|r: int|
            #![trigger self.in_of(b).has_spec(r)]
            self.in_of(b).has_spec(r) ==> ((self.out_of(b).has_spec(r) && !self.defs_of(
                b,
            ).has_spec(r)) || self.uses_of(b).has_spec(r))
    }

    /// Block `b` still holds empty live-in and live-out sets.
    pub open spec fn untouched(self, b: int) -> bool {
        forall|r: int|
            #![trigger self.in_of(b).has_spec(r)]
            #![trigger self.out_of(b).has_spec(r)]
            !self.in_of(b).has_spec(r) && !self.out_of(b).has_spec(r)
    }

    /// Block `b` still holds empty use and definition sets.
    pub open spec fn locals_empty_at(self, b: int) -> bool {
        forall|r: int|
            #![trigger self.uses_of(b).has_spec(r)]
            #![trigger self.defs_of(b).has_spec(r)]
            !self.uses_of(b).has_spec(r) && !self.defs_of(b).has_spec(r)
    }

    /// The local sets of block `b` record exactly its upward-exposed uses
    /// and its definitions.
    pub open spec fn locals_exact_at<I: Inst>(self, f: Func<I>, b: int) -> bool {
        &&& forall|r: int|
            #![trigger self.uses_of(b).has_spec(r)]
            self.uses_of(b).has_spec(r) == (0 <= r < self.nregs_spec() && upward_exposed(
                f.insts_of(b),
                r as u32,
            ))
        &&& forall|r: int|
            #![trigger self.defs_of(b).has_spec(r)]
            self.defs_of(b).has_spec(r) == (0 <= r < self.nregs_spec() && defined_in(
                f.insts_of(b),
                r as u32,
            ))
    }

    /// Every range list is well formed: ranges of one register are sorted
    /// and never overlap.
    pub open spec fn ranges_wf_all(self) -> bool {
        forall|r: int|
            0 <= r < self.nregs_spec() ==> ranges_wf(#[trigger] self.rng_of(r), r as u32)
    }
}

/// The stored live ranges of every register id in `[lo, hi)`, gathered
/// into one multiset.
pub open spec fn ranges_between(a: LivenessAnalysis, lo: int, hi: int) -> Multiset<LiveRange>
    decreases hi - lo,
{
    if hi <= lo {
        Multiset::empty()
    } else {
        ranges_between(a, lo, hi - 1).add(a.rng_of(hi - 1).to_multiset())
    }
}

/// Every register recorded live into some block, and every register some
/// instruction of `f` defines, owns at least one stored live range.
pub open spec fn ranges_present<I: Inst>(a: LivenessAnalysis, f: Func<I>) -> bool {
    &&& forall|b: int, r: int|
        0 <= b < a.nblocks_spec() && 0 <= r < a.nregs_spec() && #[trigger] a.in_of(b).has_spec(r)
            ==> a.rng_of(r).len() > 0
    &&& forall|b: int, r: u32|
        0 <= b < a.nblocks_spec() && r < a.nregs_spec() && #[trigger] defined_in(f.insts_of(b), r)
            ==> a.rng_of(r as int).len() > 0
}

/// The live-out set of block `b` gathers exactly the union of the live-in
/// sets of its successors.
pub open spec fn out_exact_at(a: LivenessAnalysis, cfg: CFG, b: int) -> bool {
    forall|r: int|
        #![trigger a.out_of(b).has_spec(r)]
        a.out_of(b).has_spec(r) == exists|j: int|
            0 <= j < cfg.succs_of(b).len() && a.in_of(cfg.succs_of(b)[j] as int).has_spec(r)
}

/// The live-out equation holds at every block.
pub open spec fn out_exact_all(a: LivenessAnalysis, cfg: CFG) -> bool {
    forall|b: int| 0 <= b < a.nblocks_spec() ==> #[trigger] out_exact_at(a, cfg, b)
}

/// Every live-in and live-out member lies below the register count.
pub open spec fn sets_bounded(a: LivenessAnalysis) -> bool {
    &&& forall|b: int, r: int|
        0 <= b < a.nblocks_spec() && #[trigger] a.in_of(b).has_spec(r) ==> 0 <= r
            < a.nregs_spec()
    &&& forall|b: int, r: int|
        0 <= b < a.nblocks_spec() && #[trigger] a.out_of(b).has_spec(r) ==> 0 <= r
            < a.nregs_spec()
}

/// How often `x` occurs among the stored ranges of the registers in
/// `[lo, hi)`: exactly as often as in its own register's list, and never
/// when its register lies outside the span.
proof fn lemma_ranges_between_count(a: LivenessAnalysis, lo: int, hi: int, x: LiveRange)
    requires
        a.ranges_wf_all(),
        0 <= lo,
        hi <= a.nregs_spec(),
        a.nregs_spec() <= u32::MAX,
    ensures
        ranges_between(a, lo, hi).count(x) == if lo <= x.reg < hi {
            a.rng_of(x.reg as int).to_multiset().count(x)
        } else {
            0
        },
    decreases hi - lo,
{
    broadcast use vstd::seq_lib::group_to_multiset_ensures;

    if hi > lo {
        lemma_ranges_between_count(a, lo, hi - 1, x);
        if x.reg != hi - 1 {
            assert(a.rng_of(hi - 1).to_multiset().count(x) == 0) by {
                if a.rng_of(hi - 1).to_multiset().count(x) > 0 {
                    assert(a.rng_of(hi - 1).contains(x));
                    let k = choose|k: int|
                        0 <= k < a.rng_of(hi - 1).len() && #[trigger] a.rng_of(hi - 1)[k] == x;
                    assert(ranges_wf(a.rng_of(hi - 1), (hi - 1) as u32));
                    assert(x.reg == (hi - 1) as u32);
                }
            }
        }
    }
}

/// The liveness result `a` describes function `f` with graph `cfg`: the
/// sets are sized to them and bounded by the register count, the local
/// sets are exact, the dataflow equation holds for every block reachable
/// from the entry, the live-out equation holds at every block, the merged
/// ranges are well formed, and every live or defined register owns a
/// range.
pub open spec fn liveness_for<I: Inst>(a: LivenessAnalysis, f: Func<I>, cfg: CFG) -> bool {
    &&& a.nblocks_spec() == f.num_blocks()
    &&& a.nregs_spec() == f.regs_count_spec()
    &&& a.sets_wf()
    &&& sets_bounded(a)
    &&& forall|b: int| 0 <= b < a.nblocks_spec() ==> #[trigger] a.locals_exact_at(f, b)
    &&& forall|b: u16|
        #![trigger crate::tir::cfg::reachable(cfg, b)]
        crate::tir::cfg::reachable(cfg, b) && b < a.nblocks_spec() ==> a.eq_at(b as int)
    &&& out_exact_all(a, cfg)
    &&& a.ranges_wf_all()
    &&& ranges_present(a, f)
}

} // verus!
verus! {

/// The in-bit and out-bit budget still unclaimed over the first `b`
/// blocks; it shrinks whenever a monotone dataflow pass grows a set.
pub open spec fn slack(a: LivenessAnalysis, b: int) -> int
    decreases b,
{
    if b <= 0 {
        0
    } else {
        slack(a, b - 1) + (64 * a.nwords_spec() - a.in_of(b - 1).count_below(
            a.in_of(b - 1).capacity_spec(),
        ) - a.out_of(b - 1).count_below(a.out_of(b - 1).capacity_spec()))
    }
}

/// The per-block sets of `post` each hold every bit of `pre`'s.
pub open spec fn flow_grows(post: LivenessAnalysis, pre: LivenessAnalysis, nb: int) -> bool {
    &&& forall|b: int, r: int|
        0 <= b < nb && pre.in_of(b).has_spec(r) ==> #[trigger] post.in_of(b).has_spec(r)
    &&& forall|b: int, r: int|
        0 <= b < nb && pre.out_of(b).has_spec(r) ==> #[trigger] post.out_of(b).has_spec(r)
    &&& forall|b: int| 0 <= b < nb ==> (#[trigger] post.in_of(b)).nwords() == pre.in_of(b).nwords()
    &&& forall|b: int|
        0 <= b < nb ==> (#[trigger] post.out_of(b)).nwords() == pre.out_of(b).nwords()
}

proof fn lemma_slack_le(post: LivenessAnalysis, pre: LivenessAnalysis, nb: int)
    requires
        flow_grows(post, pre, nb),
        post.nwords_spec() == pre.nwords_spec(),
    ensures
        slack(post, nb) <= slack(pre, nb),
    decreases nb,
{
    if nb > 0 {
        lemma_slack_le(post, pre, nb - 1);
        crate::support::bitset::lemma_count_le_pub(pre.in_of(nb - 1), post.in_of(nb - 1));
        crate::support::bitset::lemma_count_le_pub(pre.out_of(nb - 1), post.out_of(nb - 1));
    }
}

proof fn lemma_slack_lt(post: LivenessAnalysis, pre: LivenessAnalysis, nb: int, w: int)
    requires
        flow_grows(post, pre, nb),
        post.nwords_spec() == pre.nwords_spec(),
        0 <= w < nb,
        post.in_of(w).count_below(post.in_of(w).capacity_spec()) > pre.in_of(w).count_below(
            pre.in_of(w).capacity_spec(),
        ) || post.out_of(w).count_below(post.out_of(w).capacity_spec()) > pre.out_of(
            w,
        ).count_below(pre.out_of(w).capacity_spec()),
    ensures
        slack(post, nb) < slack(pre, nb),
    decreases nb,
{
    if w == nb - 1 {
        lemma_slack_le(post, pre, nb - 1);
        crate::support::bitset::lemma_count_le_pub(pre.in_of(nb - 1), post.in_of(nb - 1));
        crate::support::bitset::lemma_count_le_pub(pre.out_of(nb - 1), post.out_of(nb - 1));
    } else {
        lemma_slack_lt(post, pre, nb - 1, w);
        crate::support::bitset::lemma_count_le_pub(pre.in_of(nb - 1), post.in_of(nb - 1));
        crate::support::bitset::lemma_count_le_pub(pre.out_of(nb - 1), post.out_of(nb - 1));
    }
}

proof fn lemma_slack_nonneg(a: LivenessAnalysis, nb: int)
    requires
        forall|b: int|
            0 <= b < nb ==> (#[trigger] a.in_of(b)).nwords() == a.nwords_spec() && a.out_of(
                b,
            ).nwords() == a.nwords_spec(),
    ensures
        slack(a, nb) >= 0,
    decreases nb,
{
    if nb > 0 {
        lemma_slack_nonneg(a, nb - 1);
        a.in_of(nb - 1).lemma_count_bounded(0, a.in_of(nb - 1).capacity_spec());
        a.out_of(nb - 1).lemma_count_bounded(0, a.out_of(nb - 1).capacity_spec());
    }
}

} // verus!
verus! {



/// Unchanged per-block maps keep all sizing facts.
proof fn lemma_sets_wf_same(post: LivenessAnalysis, pre: LivenessAnalysis)
    requires
        pre.sets_wf(),
        post.in_map() == pre.in_map(),
        post.out_map() == pre.out_map(),
        post.uses_map() == pre.uses_map(),
        post.defs_map() == pre.defs_map(),
        post.nregs_spec() == pre.nregs_spec(),
    ensures
        post.sets_wf(),
{
    assert forall|b: int|
        0 <= b < post.nblocks_spec() implies (#[trigger] post.in_of(b)).nwords()
        == post.nwords_spec() && post.in_of(b).wf() by {
        assert(post.in_of(b) == pre.in_of(b));
    }
    assert forall|b: int|
        0 <= b < post.nblocks_spec() implies (#[trigger] post.out_of(b)).nwords()
        == post.nwords_spec() && post.out_of(b).wf() by {
        assert(post.out_of(b) == pre.out_of(b));
    }
    assert forall|b: int|
        0 <= b < post.nblocks_spec() implies (#[trigger] post.uses_of(b)).nwords()
        == post.nwords_spec() && post.uses_of(b).wf() by {
        assert(post.uses_of(b) == pre.uses_of(b));
    }
    assert forall|b: int|
        0 <= b < post.nblocks_spec() implies (#[trigger] post.defs_of(b)).nwords()
        == post.nwords_spec() && post.defs_of(b).wf() by {
        assert(post.defs_of(b) == pre.defs_of(b));
    }
}

/// A change confined to the sets of one block keeps all sizing facts.
proof fn lemma_sets_wf_touch(post: LivenessAnalysis, pre: LivenessAnalysis, bi: int)
    requires
        pre.sets_wf(),
        0 <= bi < pre.nblocks_spec(),
        post.in_map() == pre.in_map().update(bi, post.in_map()[bi]),
        post.out_map() == pre.out_map().update(bi, post.out_map()[bi]),
        post.uses_map() == pre.uses_map().update(bi, post.uses_map()[bi]),
        post.defs_map() == pre.defs_map().update(bi, post.defs_map()[bi]),
        post.in_of(bi).nwords() == pre.nwords_spec(),
        post.in_of(bi).wf(),
        post.out_of(bi).nwords() == pre.nwords_spec(),
        post.out_of(bi).wf(),
        post.uses_of(bi).nwords() == pre.nwords_spec(),
        post.uses_of(bi).wf(),
        post.defs_of(bi).nwords() == pre.nwords_spec(),
        post.defs_of(bi).wf(),
        post.nregs_spec() == pre.nregs_spec(),
    ensures
        post.sets_wf(),
        post.nblocks_spec() == pre.nblocks_spec(),
{
    assert(post.nblocks_spec() == pre.nblocks_spec());
    assert forall|b: int|
        0 <= b < post.nblocks_spec() implies (#[trigger] post.in_of(b)).nwords()
        == post.nwords_spec() && post.in_of(b).wf() by {
        if b != bi {
            assert(post.in_of(b) == pre.in_of(b));
        }
    }
    assert forall|b: int|
        0 <= b < post.nblocks_spec() implies (#[trigger] post.out_of(b)).nwords()
        == post.nwords_spec() && post.out_of(b).wf() by {
        if b != bi {
            assert(post.out_of(b) == pre.out_of(b));
        }
    }
    assert forall|b: int|
        0 <= b < post.nblocks_spec() implies (#[trigger] post.uses_of(b)).nwords()
        == post.nwords_spec() && post.uses_of(b).wf() by {
        if b != bi {
            assert(post.uses_of(b) == pre.uses_of(b));
        }
    }
    assert forall|b: int|
        0 <= b < post.nblocks_spec() implies (#[trigger] post.defs_of(b)).nwords()
        == post.nwords_spec() && post.defs_of(b).wf() by {
        if b != bi {
            assert(post.defs_of(b) == pre.defs_of(b));
        }
    }
}

impl LivenessAnalysis {
    /// The live-in sets, one per block.
    pub closed spec fn in_map(self) -> Seq<FixedBitSet> {
        self.live_in@
    }

    /// The live-out sets, one per block.
    pub closed spec fn out_map(self) -> Seq<FixedBitSet> {
        self.live_out@
    }

    /// The upward-exposed-use sets, one per block.
    pub closed spec fn uses_map(self) -> Seq<FixedBitSet> {
        self.uses@
    }

    /// The definition sets, one per block.
    pub closed spec fn defs_map(self) -> Seq<FixedBitSet> {
        self.defs@
    }

    /// The range lists, one per register id.
    pub closed spec fn rng_map(self) -> Seq<Vec<LiveRange>> {
        self.live_ranges@
    }

    /// Records the upward-exposed uses and the definitions of one block.
    #[verifier::rlimit(100)]
    #[verifier::spinoff_prover]
    #[verifier::loop_isolation(false)]
    fn init_block<I: Inst>(&mut self, block: Block, func: &Func<I>)
        requires
            old(self).sets_wf(),
            func_regs_in_range(*func),
            old(self).nblocks_spec() == func.num_blocks(),
            old(self).nregs_spec() == func.regs_count_spec(),
            block.0 < old(self).nblocks_spec(),
            forall|r: int| !(#[trigger] old(self).uses_of(block.0 as int).has_spec(r)),
            forall|r: int| !(#[trigger] old(self).defs_of(block.0 as int).has_spec(r)),
        ensures
            final(self).in_map() == old(self).in_map(),
            final(self).out_map() == old(self).out_map(),
            final(self).rng_map() == old(self).rng_map(),
            final(self).nregs_spec() == old(self).nregs_spec(),
            final(self).uses_map() == old(self).uses_map().update(
                block.0 as int,
                final(self).uses_map()[block.0 as int],
            ),
            final(self).defs_map() == old(self).defs_map().update(
                block.0 as int,
                final(self).defs_map()[block.0 as int],
            ),
            final(self).sets_wf(),
            final(self).locals_exact_at(*func, block.0 as int),
    {
        let ghost insts = func.insts_of(block.0 as int);
        let ghost nregs = self.nregs_spec();
        let ghost bi: int = block.0 as int;
        let data = func.get_block_data(block);
        let n = data.len();
        let mut i: usize = 0;
        while i < n
            invariant
                n == insts.len(),
                0 <= i <= n,
                self.sets_wf(),
                self.in_map() == old(self).in_map(),
                self.out_map() == old(self).out_map(),
                self.rng_map() == old(self).rng_map(),
                self.nregs_spec() == old(self).nregs_spec(),
                self.uses_map() == old(self).uses_map().update(bi, self.uses_map()[bi]),
                self.defs_map() == old(self).defs_map().update(bi, self.defs_map()[bi]),
                forall|r: int|
                    #![trigger self.uses_of(bi).has_spec(r)]
                    self.uses_of(bi).has_spec(r) == (0 <= r < nregs && exists|j: int|
                        0 <= j < i && (#[trigger] insts[j]).spec_uses().contains(r as u32)
                            && !defs_before(insts, j, r as u32)),
                forall|r: int|
                    #![trigger self.defs_of(bi).has_spec(r)]
                    self.defs_of(bi).has_spec(r) == (0 <= r < nregs && defs_before(
                        insts,
                        i as int,
                        r as u32,
                    )),
            decreases n - i,
        {
            let inst = *data.get(i);
            let uses_list = inst.get_uses();
            let defs_list = inst.get_defs();
            let ul = uses_list.as_slice();
            let dl = defs_list.as_slice();
            let ghost useq = insts[i as int].spec_uses();
            let ghost dseq = insts[i as int].spec_defs();
            let mut k: usize = 0;
            while k < ul.len()
                invariant
                    0 <= k <= ul@.len(),
                    ul@ == useq,
                    self.sets_wf(),
                    self.in_map() == old(self).in_map(),
                    self.out_map() == old(self).out_map(),
                    self.rng_map() == old(self).rng_map(),
                    self.nregs_spec() == old(self).nregs_spec(),
                    self.uses_map() == old(self).uses_map().update(bi, self.uses_map()[bi]),
                    self.defs_map() == old(self).defs_map().update(bi, self.defs_map()[bi]),
                    forall|r: int|
                        #![trigger self.defs_of(bi).has_spec(r)]
                        self.defs_of(bi).has_spec(r) == (0 <= r < nregs && defs_before(
                            insts,
                            i as int,
                            r as u32,
                        )),
                    forall|r: int|
                        #![trigger self.uses_of(bi).has_spec(r)]
                        self.uses_of(bi).has_spec(r) == (0 <= r < nregs && ((exists|j: int|
                            0 <= j < i && (#[trigger] insts[j]).spec_uses().contains(r as u32)
                                && !defs_before(insts, j, r as u32)) || (exists|m: int|
                            0 <= m < k && useq[m] == r as u32 && !defs_before(
                                insts,
                                i as int,
                                r as u32,
                            )))),
                decreases ul@.len() - k,
            {
                let r = ul[k];
                proof {
                    assert(useq[k as int] == r);
                    assert(useq.contains(r)) by {
                        assert(useq[k as int] == r);
                    }
                    assert(r < nregs);
                }
                let ghost pre = *self;
                proof {
                    assert(pre.uses_of(bi).capacity_spec() == 32 * pre.nwords_spec());
                    assert(32 * ((pre.nregs_spec() + 31) / 32) >= pre.nregs_spec())
                        by (nonlinear_arith);
                }
                let defs_ref = self.defs.get(block);
                let already = defs_ref.has(r as usize);
                proof {
                    assert(already == pre.defs_of(bi).has_spec(r as int));
                }
                if !already {
                    let uref = self.uses.get_mut(block);
                    uref.add(r as usize);
                }
                proof {
                    if !already {
                        assert forall|ii: int|
                            #![trigger self.uses_of(bi).has_spec(ii)]
                            self.uses_of(bi).has_spec(ii) == (ii == r as int || pre.uses_of(
                                bi,
                            ).has_spec(ii)) by {}
                    } else {
                        assert(self.uses_of(bi) == pre.uses_of(bi));
                    }
                    assert(self.uses_map() =~= pre.uses_map().update(bi, self.uses_map()[bi]));
                    assert(self.uses_map() =~= old(self).uses_map().update(
                        bi,
                        self.uses_map()[bi],
                    ));
                    assert(self.defs_map() =~= pre.defs_map().update(bi, self.defs_map()[bi]));
                    assert(self.in_map() =~= pre.in_map().update(bi, self.in_map()[bi]));
                    assert(self.out_map() =~= pre.out_map().update(bi, self.out_map()[bi]));
                    assert(self.in_of(bi) == pre.in_of(bi));
                    assert(self.out_of(bi) == pre.out_of(bi));
                    assert(self.defs_of(bi) == pre.defs_of(bi));
                    assert(pre.in_of(bi).nwords() == pre.nwords_spec() && pre.in_of(bi).wf());
                    assert(pre.out_of(bi).nwords() == pre.nwords_spec() && pre.out_of(bi).wf());
                    assert(pre.defs_of(bi).nwords() == pre.nwords_spec() && pre.defs_of(bi).wf());
                    assert(self.uses_of(bi).nwords() == pre.uses_of(bi).nwords());
                    assert(pre.uses_of(bi).nwords() == pre.nwords_spec());
                    lemma_sets_wf_touch(*self, pre, bi);
                    if !already {
                        assert(!defs_before(insts, i as int, r as u32));
                    } else {
                        assert(defs_before(insts, i as int, r as u32));
                    }
                    assert forall|rr: int|
                        #![trigger self.uses_of(bi).has_spec(rr)]
                        self.uses_of(bi).has_spec(rr) == (0 <= rr < nregs && ((exists|j: int|
                            0 <= j < i && (#[trigger] insts[j]).spec_uses().contains(rr as u32)
                                && !defs_before(insts, j, rr as u32)) || (exists|m: int|
                            0 <= m < k + 1 && useq[m] == rr as u32 && !defs_before(
                                insts,
                                i as int,
                                rr as u32,
                            )))) by {
                        if rr == r {
                            if !already {
                                assert(useq[k as int] == rr as u32);
                            } else {
                                if self.uses_of(bi).has_spec(rr) {
                                }
                            }
                        } else {
                            assert(self.uses_of(bi).has_spec(rr) == pre.uses_of(bi).has_spec(rr));
                            if 0 <= rr < nregs {
                                assert forall|m: int|
                                    0 <= m < k + 1 && useq[m] == rr as u32 && !defs_before(
                                        insts,
                                        i as int,
                                        rr as u32,
                                    ) implies m < k by {
                                    if m == k {
                                        assert(useq[m] == r);
                                        assert(rr as u32 != r);
                                    }
                                }
                            }
                        }
                    }
                }
                k += 1;
            }
            let mut m: usize = 0;
            while m < dl.len()
                invariant
                    0 <= m <= dl@.len(),
                    dl@ == dseq,
                    self.sets_wf(),
                    self.in_map() == old(self).in_map(),
                    self.out_map() == old(self).out_map(),
                    self.rng_map() == old(self).rng_map(),
                    self.nregs_spec() == old(self).nregs_spec(),
                    self.uses_map() == old(self).uses_map().update(bi, self.uses_map()[bi]),
                    self.defs_map() == old(self).defs_map().update(bi, self.defs_map()[bi]),
                    forall|r: int|
                        #![trigger self.uses_of(bi).has_spec(r)]
                        self.uses_of(bi).has_spec(r) == (0 <= r < nregs && (exists|j: int|
                            0 <= j < i + 1 && (#[trigger] insts[j]).spec_uses().contains(r as u32)
                                && !defs_before(insts, j, r as u32))),
                    forall|r: int|
                        #![trigger self.defs_of(bi).has_spec(r)]
                        self.defs_of(bi).has_spec(r) == (0 <= r < nregs && (defs_before(
                            insts,
                            i as int,
                            r as u32,
                        ) || (exists|mm: int| 0 <= mm < m && dseq[mm] == r as u32))),
                decreases dl@.len() - m,
            {
                let r = dl[m];
                proof {
                    assert(dseq[m as int] == r);
                    assert(r < nregs);
                }
                let ghost pre = *self;
                proof {
                    assert(pre.defs_of(bi).capacity_spec() == 32 * pre.nwords_spec());
                    assert(32 * ((pre.nregs_spec() + 31) / 32) >= pre.nregs_spec())
                        by (nonlinear_arith);
                }
                let dref = self.defs.get_mut(block);
                dref.add(r as usize);
                proof {
                    assert forall|ii: int|
                        #![trigger self.defs_of(bi).has_spec(ii)]
                        self.defs_of(bi).has_spec(ii) == (ii == r as int || pre.defs_of(
                            bi,
                        ).has_spec(ii)) by {}
                    assert(self.defs_map() =~= pre.defs_map().update(bi, self.defs_map()[bi]));
                    assert(self.defs_map() =~= old(self).defs_map().update(
                        bi,
                        self.defs_map()[bi],
                    ));
                    assert(self.uses_map() =~= pre.uses_map().update(bi, self.uses_map()[bi]));
                    assert(self.in_map() =~= pre.in_map().update(bi, self.in_map()[bi]));
                    assert(self.out_map() =~= pre.out_map().update(bi, self.out_map()[bi]));
                    assert(self.in_of(bi) == pre.in_of(bi));
                    assert(self.out_of(bi) == pre.out_of(bi));
                    assert(self.uses_of(bi) == pre.uses_of(bi));
                    assert(pre.in_of(bi).nwords() == pre.nwords_spec() && pre.in_of(bi).wf());
                    assert(pre.out_of(bi).nwords() == pre.nwords_spec() && pre.out_of(bi).wf());
                    assert(pre.uses_of(bi).nwords() == pre.nwords_spec() && pre.uses_of(bi).wf());
                    assert(self.defs_of(bi).nwords() == pre.defs_of(bi).nwords());
                    assert(pre.defs_of(bi).nwords() == pre.nwords_spec());
                    lemma_sets_wf_touch(*self, pre, bi);
                    assert forall|rr: int|
                        #![trigger self.defs_of(bi).has_spec(rr)]
                        self.defs_of(bi).has_spec(rr) == (0 <= rr < nregs && (defs_before(
                            insts,
                            i as int,
                            rr as u32,
                        ) || (exists|mm: int| 0 <= mm < m + 1 && dseq[mm] == rr as u32))) by {
                        if rr == r {
                            assert(dseq[m as int] == rr as u32);
                        } else {
                            assert(self.defs_of(bi).has_spec(rr) == pre.defs_of(bi).has_spec(rr));
                            if 0 <= rr < nregs {
                                assert forall|mm: int|
                                    0 <= mm < m + 1 && dseq[mm] == rr as u32 implies mm < m by {
                                    if mm == m {
                                        assert(dseq[mm] == r);
                                        assert(rr as u32 != r);
                                    }
                                }
                            }
                        }
                    }
                }
                m += 1;
            }
            proof {
                assert forall|r: int|
                    #![trigger self.defs_of(bi).has_spec(r)]
                    self.defs_of(bi).has_spec(r) == (0 <= r < nregs && defs_before(
                        insts,
                        i + 1,
                        r as u32,
                    )) by {
                    if 0 <= r < nregs {
                        if defs_before(insts, i + 1, r as u32) {
                            let j = choose|j: int|
                                0 <= j < i + 1 && (#[trigger] insts[j]).spec_defs().contains(
                                    r as u32,
                                );
                            if j == i {
                                let kk = choose|kk: int|
                                    0 <= kk < dseq.len() && dseq[kk] == r as u32;
                            }
                        }
                        if self.defs_of(bi).has_spec(r) {
                            if !defs_before(insts, i as int, r as u32) {
                                let mm = choose|mm: int|
                                    0 <= mm < dseq.len() && dseq[mm] == r as u32;
                                assert(insts[i as int].spec_defs().contains(r as u32));
                            }
                        }
                    }
                }
                assert forall|r: int|
                    #![trigger self.uses_of(bi).has_spec(r)]
                    self.uses_of(bi).has_spec(r) == (0 <= r < nregs && (exists|j: int|
                        0 <= j < i + 1 && (#[trigger] insts[j]).spec_uses().contains(r as u32)
                            && !defs_before(insts, j, r as u32))) by {}
            }
            i += 1;
        }
        proof {
            assert(self.locals_exact_at(*func, bi)) by {
                assert forall|r: int|
                    #![trigger self.uses_of(bi).has_spec(r)]
                    self.uses_of(bi).has_spec(r) == (0 <= r < nregs && upward_exposed(
                        insts,
                        r as u32,
                    )) by {}
                assert forall|r: int|
                    #![trigger self.defs_of(bi).has_spec(r)]
                    self.defs_of(bi).has_spec(r) == (0 <= r < nregs && defined_in(
                        insts,
                        r as u32,
                    )) by {}
            }
        }
    }
}

} // verus!
verus! {

/// The dataflow equation holds at every block reachable from the entry.
pub open spec fn eq_reachable(a: LivenessAnalysis, cfg: CFG) -> bool {
    forall|b: u16|
        #![trigger crate::tir::cfg::reachable(cfg, b)]
        crate::tir::cfg::reachable(cfg, b) && b < a.nblocks_spec() ==> a.eq_at(b as int)
}

/// Live-out of `b` stays inside the union of its successors' live-ins.
spec fn out_sub_at(a: LivenessAnalysis, cfg: CFG, b: int) -> bool {
    forall|r: int|
        #[trigger] a.out_of(b).has_spec(r) ==> exists|j: int|
            0 <= j < cfg.succs_of(b).len() && a.in_of(cfg.succs_of(b)[j] as int).has_spec(r)
}

/// Live-out of `b` holds every member of its successors' live-ins.
spec fn out_sup_at(a: LivenessAnalysis, cfg: CFG, b: int) -> bool {
    forall|j: int, r: int|
        0 <= j < cfg.succs_of(b).len() && #[trigger] a.in_of(
            cfg.succs_of(b)[j] as int,
        ).has_spec(r) ==> a.out_of(b).has_spec(r)
}

impl LivenessAnalysis {
    /// Seeds the worklist with the blocks reachable from the entry, in
    /// depth-first visitation order.
    fn compute_reverse_postorder<I: Inst>(func: &Func<I>, cfg: &CFG) -> (order: Vec<Block>)
        requires
            cfg.wf(),
            cfg.entry_spec() == Block(0),
            1 <= cfg.nblocks() <= u16::MAX,
        ensures
            crate::analysis::dom_tree::good_order(*cfg, order@),
    {
        crate::analysis::dom_tree::depth_first_order(cfg)
    }

    /// Runs the backward worklist pass until the live-in and live-out
    /// sets stop changing; on exit the dataflow equation holds for every
    /// block the traversal seeded.
    #[verifier::rlimit(100)]
    #[verifier::spinoff_prover]
    #[verifier::loop_isolation(false)]
    fn construct<I: Inst>(&mut self, func: &Func<I>, cfg: &CFG)
        requires
            old(self).sets_wf(),
            cfg.wf(),
            cfg.entry_spec() == Block(0),
            1 <= cfg.nblocks() <= u16::MAX,
            old(self).nblocks_spec() == cfg.nblocks(),
            func.num_blocks() == cfg.nblocks(),
            forall|b: int| 0 <= b < old(self).nblocks_spec() ==> #[trigger] old(self).untouched(b),
            forall|b: int, r: int|
                0 <= b < old(self).nblocks_spec() && #[trigger] old(self).uses_of(b).has_spec(r)
                    ==> 0 <= r < old(self).nregs_spec(),
        ensures
            final(self).uses_map() == old(self).uses_map(),
            final(self).defs_map() == old(self).defs_map(),
            final(self).rng_map() == old(self).rng_map(),
            final(self).nregs_spec() == old(self).nregs_spec(),
            final(self).nblocks_spec() == old(self).nblocks_spec(),
            final(self).sets_wf(),
            eq_reachable(*final(self), *cfg),
            out_exact_all(*final(self), *cfg),
            sets_bounded(*final(self)),
    {
        let ghost nb = self.nblocks_spec();
        let order = Self::compute_reverse_postorder(func, cfg);
        let mut worklist = crate::svec::BlockList::new();
        let mut oi: usize = 0;
        while oi < order.len()
            invariant
                0 <= oi <= order@.len(),
                crate::svec::block_list(worklist).len() == oi,
                forall|j: int|
                    0 <= j < oi ==> #[trigger] crate::svec::block_list(worklist)[j]
                        == order@[j].0,
            decreases order@.len() - oi,
        {
            worklist.push(order[oi]);
            oi += 1;
        }
        let ghost ord0 = crate::svec::block_list(worklist);
        proof {
            assert(ord0.len() == order@.len());
            assert forall|b: u16|
                crate::analysis::dom_tree::ids_contain(order@, b) implies ord0.contains(b) by {
                let k = choose|k: int|
                    0 <= k < order@.len() && (#[trigger] order@[k]).0 == b;
                assert(ord0[k] == b);
            }
            assert forall|j: int|
                0 <= j < ord0.len() implies #[trigger] ord0[j] < nb by {
                assert(ord0[j] == order@[j].0);
            }
        }
        proof {
            assert forall|b: int| 0 <= b < nb implies #[trigger] self.mono_at(b) by {
                assert(old(self).untouched(b));
            }
            assert forall|b: int|
                0 <= b < nb implies crate::svec::block_list(worklist).contains(b as u16) || (
                #[trigger] self.eq_at(b)) || (!ord0.contains(b as u16) && self.untouched(b)) by {
                assert(old(self).untouched(b));
                assert(self.untouched(b));
            }
            assert forall|b: int| 0 <= b < nb implies #[trigger] out_sub_at(*self, *cfg, b) by {
                assert(old(self).untouched(b));
                assert(self.untouched(b));
            }
            assert forall|b: int| 0 <= b < nb implies #[trigger] out_sup_at(*self, *cfg, b) by {
                assert forall|j: int, r: int|
                    0 <= j < cfg.succs_of(b).len() && #[trigger] self.in_of(
                        cfg.succs_of(b)[j] as int,
                    ).has_spec(r) implies self.out_of(b).has_spec(r) by {
                    assert(cfg.succs_of(b)[j] < cfg.nblocks());
                    assert(old(self).untouched(cfg.succs_of(b)[j] as int));
                    assert(self.untouched(cfg.succs_of(b)[j] as int));
                }
            }
            assert forall|b: int, r: int|
                0 <= b < nb && #[trigger] self.in_of(b).has_spec(r) implies 0 <= r
                < self.nregs_spec() by {
                assert(self.untouched(b));
            }
            assert forall|b: int, r: int|
                0 <= b < nb && #[trigger] self.out_of(b).has_spec(r) implies 0 <= r
                < self.nregs_spec() by {
                assert(self.untouched(b));
            }
        }
        while worklist.as_slice().len() > 0
            invariant
                self.sets_wf(),
                self.nblocks_spec() == nb,
                self.uses_map() == old(self).uses_map(),
                self.defs_map() == old(self).defs_map(),
                self.rng_map() == old(self).rng_map(),
                self.nregs_spec() == old(self).nregs_spec(),
                forall|j: int|
                    0 <= j < crate::svec::block_list(worklist).len()
                        ==> #[trigger] crate::svec::block_list(worklist)[j] < nb,
                forall|b: int|
                    0 <= b < nb ==> #[trigger] self.mono_at(b),
                forall|b: int|
                    0 <= b < nb ==> crate::svec::block_list(worklist).contains(b as u16) || (
                    #[trigger] self.eq_at(b)) || (!ord0.contains(b as u16) && self.untouched(b)),
                forall|b: int| 0 <= b < nb ==> #[trigger] out_sub_at(*self, *cfg, b),
                forall|b: int|
                    0 <= b < nb ==> crate::svec::block_list(worklist).contains(b as u16)
                        || #[trigger] out_sup_at(*self, *cfg, b),
                forall|b: int, r: int|
                    0 <= b < nb && #[trigger] self.in_of(b).has_spec(r) ==> 0 <= r
                        < self.nregs_spec(),
                forall|b: int, r: int|
                    0 <= b < nb && #[trigger] self.out_of(b).has_spec(r) ==> 0 <= r
                        < self.nregs_spec(),
            decreases slack(*self, nb), crate::svec::block_list(worklist).len(),
        {
            let ghost pre = *self;
            let ghost pre_wl = crate::svec::block_list(worklist);
            let block = match worklist.pop() {
                Some(b) => b,
                None => vstd::pervasive::unreached(),
            };
            proof {
                assert(pre_wl[pre_wl.len() - 1] < nb);
                assert(block.0 < nb);
                assert forall|b: u16|
                    crate::svec::block_list(worklist).contains(b) implies pre_wl.contains(b) by {
                    let j = choose|j: int|
                        0 <= j < crate::svec::block_list(worklist).len()
                            && crate::svec::block_list(worklist)[j] == b;
                    assert(pre_wl[j] == b);
                }
            }
            let ghost bi: int = block.0 as int;
            proof {
                assert(self.in_of(bi).wf() && self.out_of(bi).wf());
                assert(self.uses_of(bi).wf() && self.defs_of(bi).wf());
                assert(self.in_of(bi).nwords() == self.nwords_spec());
                assert(self.out_of(bi).nwords() == self.nwords_spec());
            }
            let in_count = self.live_in.get(block).ones_count();
            let out_count = self.live_out.get(block).ones_count();
            let succs = cfg.succs(block);
            let ghost sseq = cfg.succs_of(bi);
            let mut si: usize = 0;
            while si < succs.len()
                invariant
                    0 <= si <= succs@.len(),
                    succs@.map_values(|b: Block| b.0) == sseq,
                    sseq == cfg.succs_of(bi),
                    0 <= bi < nb,
                    self.sets_wf(),
                    self.nblocks_spec() == nb,
                    self.in_map() == pre.in_map(),
                    self.uses_map() == pre.uses_map(),
                    self.defs_map() == pre.defs_map(),
                    self.rng_map() == pre.rng_map(),
                    self.nregs_spec() == pre.nregs_spec(),
                    self.out_map() == pre.out_map().update(bi, self.out_map()[bi]),
                    self.out_of(bi).nwords() == pre.out_of(bi).nwords(),
                    forall|r: int|
                        pre.out_of(bi).has_spec(r) ==> #[trigger] self.out_of(bi).has_spec(r),
                    forall|r: int|
                        #[trigger] self.out_of(bi).has_spec(r) ==> pre.out_of(bi).has_spec(r) || (
                        exists|j: int|
                            0 <= j < si && #[trigger] pre.in_of(sseq[j] as int).has_spec(r)),
                    forall|j: int, r: int|
                        0 <= j < si && #[trigger] pre.in_of(sseq[j] as int).has_spec(r)
                            ==> self.out_of(bi).has_spec(r),
                decreases succs@.len() - si,
            {
                let s = succs[si];
                proof {
                    assert(s.0 == sseq[si as int]);
                    assert(cfg.succs_of(bi)[si as int] < cfg.nblocks());
                }
                let ghost mid = *self;
                proof {
                    assert(self.in_of(s.0 as int).nwords() == self.nwords_spec());
                    assert(self.out_of(bi).nwords() == self.nwords_spec());
                }
                let in_ref = self.live_in.get(s);
                let out_ref = self.live_out.get_mut(block);
                out_ref.union(in_ref);
                proof {
                    assert(self.out_map() =~= mid.out_map().update(bi, self.out_map()[bi]));
                    assert(self.out_map() =~= pre.out_map().update(bi, self.out_map()[bi]));
                    assert(crate::support::bitset::is_union(
                        self.out_of(bi),
                        mid.out_of(bi),
                        mid.in_of(s.0 as int),
                    ));
                    assert(mid.in_of(s.0 as int) == pre.in_of(sseq[si as int] as int));
                    assert(self.in_of(bi) == pre.in_of(bi));
                    assert(self.uses_of(bi) == pre.uses_of(bi));
                    assert(self.defs_of(bi) == pre.defs_of(bi));
                    assert(self.in_map() =~= mid.in_map().update(bi, self.in_map()[bi]));
                    assert(self.uses_map() =~= mid.uses_map().update(bi, self.uses_map()[bi]));
                    assert(self.defs_map() =~= mid.defs_map().update(bi, self.defs_map()[bi]));
                    lemma_sets_wf_touch(*self, mid, bi);
                    assert forall|r: int|
                        #[trigger] self.out_of(bi).has_spec(r) implies mid.out_of(bi).has_spec(r)
                        || pre.in_of(sseq[si as int] as int).has_spec(r) by {}
                }
                si += 1;
            }
            let ghost mid2 = *self;
            proof {
                assert(self.in_of(bi).nwords() == self.nwords_spec());
                assert(self.out_of(bi).nwords() == self.nwords_spec());
                assert(self.uses_of(bi).nwords() == self.nwords_spec());
                assert(self.defs_of(bi).nwords() == self.nwords_spec());
            }
            let out_now = self.live_out.get(block);
            let in_ref = self.live_in.get_mut(block);
            in_ref.union(out_now);
            proof {
                assert(self.in_map() =~= mid2.in_map().update(bi, self.in_map()[bi]));
                assert(self.out_map() =~= mid2.out_map().update(bi, self.out_map()[bi]));
                assert(self.uses_map() =~= mid2.uses_map().update(bi, self.uses_map()[bi]));
                assert(self.defs_map() =~= mid2.defs_map().update(bi, self.defs_map()[bi]));
                lemma_sets_wf_touch(*self, mid2, bi);
            }
            let ghost mid3 = *self;
            proof {
                assert(self.in_of(bi).nwords() == self.nwords_spec());
                assert(self.defs_of(bi).nwords() == self.nwords_spec());
            }
            let defs_now = self.defs.get(block);
            let in_ref2 = self.live_in.get_mut(block);
            in_ref2.difference(defs_now);
            proof {
                assert(self.in_map() =~= mid3.in_map().update(bi, self.in_map()[bi]));
                assert(self.in_map() =~= mid2.in_map().update(bi, self.in_map()[bi]));
                assert(self.out_map() =~= mid3.out_map().update(bi, self.out_map()[bi]));
                assert(self.uses_map() =~= mid3.uses_map().update(bi, self.uses_map()[bi]));
                assert(self.defs_map() =~= mid3.defs_map().update(bi, self.defs_map()[bi]));
                lemma_sets_wf_touch(*self, mid3, bi);
            }
            let ghost mid4 = *self;
            proof {
                assert(self.in_of(bi).nwords() == self.nwords_spec());
                assert(self.uses_of(bi).nwords() == self.nwords_spec());
            }
            let uses_now = self.uses.get(block);
            let in_ref3 = self.live_in.get_mut(block);
            in_ref3.union(uses_now);
            proof {
                assert(self.in_map() =~= mid4.in_map().update(bi, self.in_map()[bi]));
                assert(self.in_map() =~= mid2.in_map().update(bi, self.in_map()[bi]));
                assert(self.in_map() =~= pre.in_map().update(bi, self.in_map()[bi]));
                assert(self.out_map() =~= pre.out_map().update(bi, self.out_map()[bi]));
                assert(self.out_map() =~= mid4.out_map().update(bi, self.out_map()[bi]));
                assert(self.uses_map() =~= mid4.uses_map().update(bi, self.uses_map()[bi]));
                assert(self.defs_map() =~= mid4.defs_map().update(bi, self.defs_map()[bi]));
                lemma_sets_wf_touch(*self, mid4, bi);
                assert(self.uses_of(bi) == pre.uses_of(bi));
                assert(self.defs_of(bi) == pre.defs_of(bi));
                assert(self.out_of(bi) == mid2.out_of(bi));
                assert forall|r: int|
                    #![trigger self.in_of(bi).has_spec(r)]
                    self.in_of(bi).has_spec(r) == ((self.out_of(bi).has_spec(r)
                        && !self.defs_of(bi).has_spec(r)) || self.uses_of(bi).has_spec(r)) by {
                    assert(mid3.in_of(bi).has_spec(r) == (mid2.in_of(bi).has_spec(r)
                        || mid2.out_of(bi).has_spec(r)));
                    assert(mid4.in_of(bi).has_spec(r) == (mid3.in_of(bi).has_spec(r)
                        && !mid3.defs_of(bi).has_spec(r)));
                    assert(self.in_of(bi).has_spec(r) == (mid4.in_of(bi).has_spec(r)
                        || mid4.uses_of(bi).has_spec(r)));
                    if pre.in_of(bi).has_spec(r) {
                        assert(pre.mono_at(bi));
                        assert((pre.out_of(bi).has_spec(r) && !pre.defs_of(bi).has_spec(r))
                            || pre.uses_of(bi).has_spec(r));
                        assert(pre.out_of(bi).has_spec(r) ==> self.out_of(bi).has_spec(r));
                    }
                }
                assert(self.eq_at(bi));
                assert forall|r: int|
                    pre.in_of(bi).has_spec(r) implies #[trigger] self.in_of(bi).has_spec(r) by {
                    assert(pre.mono_at(bi));
                    assert(pre.out_of(bi).has_spec(r) ==> self.out_of(bi).has_spec(r));
                }
            }
            proof {
                assert(self.in_of(bi).wf() && self.out_of(bi).wf());
            }
            let new_in_count = self.live_in.get(block).ones_count();
            let new_out_count = self.live_out.get(block).ones_count();
            let changed = new_in_count != in_count || new_out_count != out_count;
            let ghost pre_push = *self;
            let ghost wl_before_push = crate::svec::block_list(worklist);
            if changed {
                let preds = cfg.preds(block);
                let mut pi: usize = 0;
                while pi < preds.len()
                    invariant
                        0 <= pi <= preds@.len(),
                        preds@.map_values(|b: Block| b.0) == cfg.preds_of(bi),
                        0 <= bi < nb,
                        forall|j: int|
                            0 <= j < crate::svec::block_list(worklist).len()
                                ==> #[trigger] crate::svec::block_list(worklist)[j] < nb,
                        forall|b: u16|
                            wl_before_push.contains(b) ==> crate::svec::block_list(
                                worklist,
                            ).contains(b),
                        forall|jj: int|
                            0 <= jj < pi ==> crate::svec::block_list(worklist).contains(
                                #[trigger] cfg.preds_of(bi)[jj],
                            ),
                    decreases preds@.len() - pi,
                {
                    let p = preds[pi];
                    proof {
                        assert(p.0 == cfg.preds_of(bi)[pi as int]);
                        assert(cfg.preds_of(bi)[pi as int] < cfg.nblocks());
                    }
                    let ghost wpre = crate::svec::block_list(worklist);
                    worklist.push(p);
                    proof {
                        assert forall|b: u16|
                            wpre.contains(b) implies crate::svec::block_list(worklist).contains(
                            b,
                        ) by {
                            let j = choose|j: int| 0 <= j < wpre.len() && wpre[j] == b;
                            assert(crate::svec::block_list(worklist)[j] == b);
                        }
                        assert forall|j: int|
                            0 <= j < crate::svec::block_list(worklist).len()
                                implies #[trigger] crate::svec::block_list(worklist)[j] < nb by {
                            if j < wpre.len() {
                                assert(crate::svec::block_list(worklist)[j] == wpre[j]);
                            }
                        }
                        assert forall|jj: int|
                            0 <= jj < pi + 1 implies crate::svec::block_list(worklist).contains(
                            #[trigger] cfg.preds_of(bi)[jj],
                        ) by {
                            if jj == pi {
                                assert(crate::svec::block_list(worklist)[wpre.len() as int]
                                    == p.0);
                                assert(cfg.preds_of(bi)[jj] == p.0);
                            } else {
                                assert(wpre.contains(cfg.preds_of(bi)[jj]));
                            }
                        }
                    }
                    pi += 1;
                }
            }
            proof {
                let wl_now = crate::svec::block_list(worklist);
                assert forall|b: int|
                    0 <= b < nb implies #[trigger] self.mono_at(b) by {
                    if b != bi {
                        assert(self.in_of(b) == pre.in_of(b));
                        assert(self.out_of(b) == pre.out_of(b));
                        assert(self.uses_of(b) == pre.uses_of(b));
                        assert(self.defs_of(b) == pre.defs_of(b));
                        assert(pre.mono_at(b));
                    } else {
                        assert(self.eq_at(bi));
                    }
                }
                assert forall|b: int|
                    0 <= b < nb implies wl_now.contains(b as u16) || (#[trigger] self.eq_at(b))
                        || (!ord0.contains(b as u16) && self.untouched(b)) by {
                    if b == bi {
                        assert(self.eq_at(b));
                    } else {
                        assert(self.in_of(b) == pre.in_of(b));
                        assert(self.out_of(b) == pre.out_of(b));
                        assert(self.uses_of(b) == pre.uses_of(b));
                        assert(self.defs_of(b) == pre.defs_of(b));
                        if pre_wl.contains(b as u16) {
                            let j = choose|j: int|
                                0 <= j < pre_wl.len() && pre_wl[j] == b as u16;
                            if j < pre_wl.len() - 1 {
                                assert(wl_before_push[j] == b as u16);
                                assert(wl_before_push.contains(b as u16));
                                assert(wl_now.contains(b as u16));
                            } else {
                                assert(b as u16 == block.0);
                            }
                        } else if pre.eq_at(b) {
                            assert(self.eq_at(b));
                        } else {
                            assert(!ord0.contains(b as u16) && pre.untouched(b));
                            assert(self.untouched(b));
                        }
                    }
                }
                // termination measure
                assert(flow_grows(*self, pre, nb)) by {
                    assert forall|b: int, r: int|
                        0 <= b < nb && pre.in_of(b).has_spec(r) implies #[trigger] self.in_of(
                        b,
                    ).has_spec(r) by {
                        if b != bi {
                            assert(self.in_of(b) == pre.in_of(b));
                        }
                    }
                    assert forall|b: int, r: int|
                        0 <= b < nb && pre.out_of(b).has_spec(r) implies #[trigger] self.out_of(
                        b,
                    ).has_spec(r) by {
                        if b != bi {
                            assert(self.out_of(b) == pre.out_of(b));
                        }
                    }
                    assert forall|b: int|
                        0 <= b < nb implies (#[trigger] self.in_of(b)).nwords() == pre.in_of(
                        b,
                    ).nwords() by {
                        if b != bi {
                            assert(self.in_of(b) == pre.in_of(b));
                        }
                    }
                    assert forall|b: int|
                        0 <= b < nb implies (#[trigger] self.out_of(b)).nwords() == pre.out_of(
                        b,
                    ).nwords() by {
                        if b != bi {
                            assert(self.out_of(b) == pre.out_of(b));
                        }
                    }
                }
                if changed {
                    assert(in_count == pre.in_of(bi).count_below(pre.in_of(bi).capacity_spec()));
                    assert(new_in_count == self.in_of(bi).count_below(
                        self.in_of(bi).capacity_spec(),
                    ));
                    crate::support::bitset::lemma_count_le_pub(pre.in_of(bi), self.in_of(bi));
                    crate::support::bitset::lemma_count_le_pub(pre.out_of(bi), self.out_of(bi));
                    lemma_slack_lt(*self, pre, nb, bi);
                } else {
                    crate::support::bitset::lemma_count_le_pub(pre.in_of(bi), self.in_of(bi));
                    crate::support::bitset::lemma_count_le_pub(pre.out_of(bi), self.out_of(bi));
                    crate::support::bitset::lemma_subset_same_count_eq(
                        pre.in_of(bi),
                        self.in_of(bi),
                    );
                    crate::support::bitset::lemma_subset_same_count_eq(
                        pre.out_of(bi),
                        self.out_of(bi),
                    );
                    lemma_slack_le(*self, pre, nb);
                    lemma_slack_le(pre, *self, nb);
                    assert(wl_now.len() < pre_wl.len());
                }
                lemma_slack_nonneg(*self, nb);
                // the live-out equation's bookkeeping
                if !changed {
                    crate::support::bitset::lemma_subset_same_count_eq(
                        pre.in_of(bi),
                        self.in_of(bi),
                    );
                }
                assert forall|b: int| 0 <= b < nb implies #[trigger] out_sub_at(
                    *self,
                    *cfg,
                    b,
                ) by {
                    assert(out_sub_at(pre, *cfg, b));
                    assert forall|r: int|
                        #[trigger] self.out_of(b).has_spec(r) implies exists|j: int|
                        0 <= j < cfg.succs_of(b).len() && self.in_of(
                            cfg.succs_of(b)[j] as int,
                        ).has_spec(r) by {
                        if b != bi {
                            assert(self.out_of(b) == pre.out_of(b));
                            assert(pre.out_of(b).has_spec(r));
                            let j = choose|j: int|
                                0 <= j < cfg.succs_of(b).len() && pre.in_of(
                                    cfg.succs_of(b)[j] as int,
                                ).has_spec(r);
                            assert(cfg.succs_of(b)[j] < cfg.nblocks());
                            assert(self.in_of(cfg.succs_of(b)[j] as int).has_spec(r));
                        } else {
                            assert(self.out_of(bi) == mid2.out_of(bi));
                            if pre.out_of(bi).has_spec(r) {
                                let j = choose|j: int|
                                    0 <= j < cfg.succs_of(bi).len() && pre.in_of(
                                        cfg.succs_of(bi)[j] as int,
                                    ).has_spec(r);
                                assert(cfg.succs_of(bi)[j] < cfg.nblocks());
                                assert(self.in_of(cfg.succs_of(bi)[j] as int).has_spec(r));
                            } else {
                                let j = choose|j: int|
                                    0 <= j < sseq.len() && pre.in_of(
                                        (#[trigger] sseq[j]) as int,
                                    ).has_spec(r);
                                assert(sseq[j] == cfg.succs_of(bi)[j]);
                                assert(sseq[j] < cfg.nblocks());
                                assert(self.in_of(sseq[j] as int).has_spec(r));
                            }
                        }
                    }
                }
                assert forall|b: int, r: int|
                    0 <= b < nb && #[trigger] self.out_of(b).has_spec(r) implies 0 <= r
                    < self.nregs_spec() by {
                    if b != bi {
                        assert(self.out_of(b) == pre.out_of(b));
                        assert(pre.out_of(b).has_spec(r));
                    } else {
                        assert(self.out_of(bi) == mid2.out_of(bi));
                        if !pre.out_of(bi).has_spec(r) {
                            let j = choose|j: int|
                                0 <= j < sseq.len() && pre.in_of(
                                    (#[trigger] sseq[j]) as int,
                                ).has_spec(r);
                            assert(sseq[j] < cfg.nblocks());
                        }
                    }
                }
                assert forall|b: int, r: int|
                    0 <= b < nb && #[trigger] self.in_of(b).has_spec(r) implies 0 <= r
                    < self.nregs_spec() by {
                    if b != bi {
                        assert(self.in_of(b) == pre.in_of(b));
                        assert(pre.in_of(b).has_spec(r));
                    } else {
                        assert(self.eq_at(bi));
                        assert(self.in_of(bi).has_spec(r) == ((self.out_of(bi).has_spec(r)
                            && !self.defs_of(bi).has_spec(r)) || self.uses_of(bi).has_spec(r)));
                        if self.uses_of(bi).has_spec(r) {
                            assert(self.uses_of(bi) == pre.uses_of(bi));
                            assert(old(self).uses_of(bi).has_spec(r));
                        }
                    }
                }
                assert forall|b: int|
                    0 <= b < nb implies wl_now.contains(b as u16) || #[trigger] out_sup_at(
                    *self,
                    *cfg,
                    b,
                ) by {
                    if !wl_now.contains(b as u16) {
                        assert forall|j: int, r: int|
                            0 <= j < cfg.succs_of(b).len() && #[trigger] self.in_of(
                                cfg.succs_of(b)[j] as int,
                            ).has_spec(r) implies self.out_of(b).has_spec(r) by {
                            let s = cfg.succs_of(b)[j];
                            assert(s < cfg.nblocks());
                            assert(pre.in_of(s as int).has_spec(r)) by {
                                if s as int == bi {
                                    if changed {
                                        assert(cfg.succs_of((b as u16) as int).contains(s));
                                        assert(cfg.preds_of(s as int).contains(b as u16));
                                        let jj = choose|jj: int|
                                            0 <= jj < cfg.preds_of(bi).len() && cfg.preds_of(
                                                bi,
                                            )[jj] == b as u16;
                                        assert(wl_now.contains(b as u16));
                                        assert(false);
                                    } else {
                                        assert(self.in_of(bi).has_spec(r) == pre.in_of(
                                            bi,
                                        ).has_spec(r));
                                    }
                                } else {
                                    assert(self.in_of(s as int) == pre.in_of(s as int));
                                }
                            }
                            if b != bi {
                                assert(!pre_wl.contains(b as u16)) by {
                                    if pre_wl.contains(b as u16) {
                                        let jw = choose|jw: int|
                                            0 <= jw < pre_wl.len() && pre_wl[jw] == b as u16;
                                        if jw < pre_wl.len() - 1 {
                                            assert(wl_before_push[jw] == b as u16);
                                            assert(wl_before_push.contains(b as u16));
                                            assert(wl_now.contains(b as u16));
                                        } else {
                                            assert(b as u16 == block.0);
                                        }
                                    }
                                }
                                assert(out_sup_at(pre, *cfg, b));
                                assert(pre.out_of(b).has_spec(r));
                                assert(self.out_of(b) == pre.out_of(b));
                            } else {
                                assert(sseq[j] == s);
                                assert(sseq.len() == succs@.len());
                                assert(pre.in_of(sseq[j] as int).has_spec(r));
                                assert(mid2.out_of(bi).has_spec(r));
                                assert(self.out_of(bi) == mid2.out_of(bi));
                            }
                        }
                    }
                }
            }
        }
        proof {
            assert forall|b: u16|
                #![trigger crate::tir::cfg::reachable(*cfg, b)]
                crate::tir::cfg::reachable(*cfg, b) && b < self.nblocks_spec() implies self.eq_at(
                b as int,
            ) by {
                let p = choose|p: Seq<u16>|
                    crate::tir::cfg::is_path(*cfg, p) && p.last() == b;
                crate::analysis::dom_tree::lemma_path_in_order(*cfg, order@, p);
                assert(ord0.contains(b));
                assert(!crate::svec::block_list(worklist).contains(b));
            }
            assert(eq_reachable(*self, *cfg));
            assert forall|b: int|
                0 <= b < self.nblocks_spec() implies #[trigger] out_exact_at(
                *self,
                *cfg,
                b,
            ) by {
                assert(!crate::svec::block_list(worklist).contains(b as u16)) by {
                    if crate::svec::block_list(worklist).contains(b as u16) {
                        let jw = choose|jw: int|
                            0 <= jw < crate::svec::block_list(worklist).len()
                                && crate::svec::block_list(worklist)[jw] == b as u16;
                    }
                }
                assert(out_sub_at(*self, *cfg, b));
                assert(out_sup_at(*self, *cfg, b));
                assert forall|r: int|
                    #![trigger self.out_of(b).has_spec(r)]
                    self.out_of(b).has_spec(r) == (exists|j: int|
                        0 <= j < cfg.succs_of(b).len() && self.in_of(
                            cfg.succs_of(b)[j] as int,
                        ).has_spec(r)) by {
                    if !self.out_of(b).has_spec(r) {
                        if exists|j: int|
                            0 <= j < cfg.succs_of(b).len() && self.in_of(
                                cfg.succs_of(b)[j] as int,
                            ).has_spec(r) {
                            let j = choose|j: int|
                                0 <= j < cfg.succs_of(b).len() && self.in_of(
                                    cfg.succs_of(b)[j] as int,
                                ).has_spec(r);
                            assert(self.out_of(b).has_spec(r));
                        }
                    }
                }
            }
            assert(out_exact_all(*self, *cfg));
            assert(sets_bounded(*self));
        }
    }
}

} // verus!
verus! {

impl LivenessAnalysis {
    /// Every stored range carries its list's register, runs forward, and
    /// ends inside the function.
    pub open spec fn ranges_elementwise<I: Inst>(self, f: Func<I>) -> bool {
        forall|r: int, k: int|
            0 <= r < self.nregs_spec() && 0 <= k < self.rng_of(r).len() ==> (#[trigger] self.rng_of(
                r,
            )[k]).reg == r as u32 && pp_le(self.rng_of(r)[k].start, self.rng_of(r)[k].end)
                && self.rng_of(r)[k].end.block.0 < f.num_blocks()
    }

    /// Sorts and coalesces the range list of every register.
    #[verifier::rlimit(100)]
    #[verifier::spinoff_prover]
    #[verifier::loop_isolation(false)]
    fn merge_intervals<I: Inst>(&mut self, func: &Func<I>)
        requires
            old(self).ranges_elementwise(*func),
            old(self).nregs_spec() <= u32::MAX,
        ensures
            final(self).in_map() == old(self).in_map(),
            final(self).out_map() == old(self).out_map(),
            final(self).uses_map() == old(self).uses_map(),
            final(self).defs_map() == old(self).defs_map(),
            final(self).nregs_spec() == old(self).nregs_spec(),
            final(self).nblocks_spec() == old(self).nblocks_spec(),
            final(self).ranges_elementwise(*func),
            final(self).ranges_wf_all(),
            forall|r: int|
                0 <= r < old(self).nregs_spec() && old(self).rng_of(r).len() > 0
                    ==> #[trigger] final(self).rng_of(r).len() > 0,
    {
        let ghost nregs = self.nregs_spec();
        let cap = self.live_ranges.capacity();
        let mut ri: usize = 0;
        while ri < cap
            invariant
                cap == nregs,
                nregs <= u32::MAX,
                0 <= ri <= cap,
                self.in_map() == old(self).in_map(),
                self.out_map() == old(self).out_map(),
                self.uses_map() == old(self).uses_map(),
                self.defs_map() == old(self).defs_map(),
                self.nregs_spec() == nregs,
                self.nblocks_spec() == old(self).nblocks_spec(),
                self.ranges_elementwise(*func),
                forall|r: int| 0 <= r < ri ==> ranges_wf(#[trigger] self.rng_of(r), r as u32),
                forall|r: int|
                    0 <= r < nregs && old(self).rng_of(r).len() > 0 ==> #[trigger] self.rng_of(
                        r,
                    ).len() > 0,
            decreases cap - ri,
        {
            let ghost pre = *self;
            proof {
                assert forall|k: int|
                    0 <= k < pre.rng_of(ri as int).len() implies (#[trigger] pre.rng_of(
                    ri as int,
                )[k]).reg == ri as u32 && pp_le(
                    pre.rng_of(ri as int)[k].start,
                    pre.rng_of(ri as int)[k].end,
                ) && pre.rng_of(ri as int)[k].end.block.0 < func.num_blocks() by {}
            }
            let key: u32 = ri as u32;
            proof {
                assert((key as usize) == ri);
            }
            let list = self.live_ranges.get_mut(key);
            merge_one_list(func, list, Ghost(ri as u32));
            proof {
                assert(self.rng_map() =~= pre.rng_map().update(
                    ri as int,
                    self.rng_map()[ri as int],
                ));
                assert forall|r: int, k: int|
                    0 <= r < nregs && 0 <= k < self.rng_of(r).len() implies (#[trigger] self.rng_of(
                    r,
                )[k]).reg == r as u32 && pp_le(self.rng_of(r)[k].start, self.rng_of(r)[k].end)
                    && self.rng_of(r)[k].end.block.0 < func.num_blocks() by {
                    if r != ri {
                        assert(self.rng_of(r) == pre.rng_of(r));
                    }
                }
                assert forall|r: int|
                    0 <= r < ri + 1 implies ranges_wf(#[trigger] self.rng_of(r), r as u32) by {
                    if r < ri {
                        assert(self.rng_of(r) == pre.rng_of(r));
                    }
                }
                assert forall|r: int|
                    0 <= r < nregs && old(self).rng_of(r).len() > 0 implies #[trigger] self.rng_of(
                    r,
                ).len() > 0 by {
                    if r != ri {
                        assert(self.rng_of(r) == pre.rng_of(r));
                    } else {
                        assert(pre.rng_of(r).len() > 0);
                    }
                }
            }
            ri += 1;
        }
    }

    /// Materializes per-register live ranges: a register live into a block
    /// opens a range there, uses extend the open range, definitions start
    /// a new one, and a register live out of a block is extended to the
    /// block's end; after every block the ranges are re-sorted and
    /// coalesced.
    #[verifier::rlimit(100)]
    #[verifier::spinoff_prover]
    #[verifier::loop_isolation(false)]
    fn compute_live_ranges<I: Inst>(&mut self, func: &Func<I>, cfg: &CFG)
        requires
            old(self).sets_wf(),
            func_regs_in_range(*func),
            old(self).nblocks_spec() == func.num_blocks(),
            old(self).nregs_spec() == func.regs_count_spec(),
            func.num_blocks() <= u16::MAX,
            forall|b: int|
                0 <= b < func.num_blocks() ==> #[trigger] func.insts_of(b).len() < u32::MAX,
            old(self).ranges_elementwise(*func),
        ensures
            final(self).in_map() == old(self).in_map(),
            final(self).out_map() == old(self).out_map(),
            final(self).uses_map() == old(self).uses_map(),
            final(self).defs_map() == old(self).defs_map(),
            final(self).nregs_spec() == old(self).nregs_spec(),
            final(self).nblocks_spec() == old(self).nblocks_spec(),
            final(self).sets_wf(),
            final(self).ranges_wf_all(),
            ranges_present(*final(self), *func),
    {
        let ghost nregs = self.nregs_spec();
        let ghost nb = self.nblocks_spec();
        let nblocks = func.blocks_count();
        let regs = self.live_ranges.capacity();
        let mut b: usize = 0;
        while b < nblocks
            invariant
                nblocks == nb,
                regs == nregs,
                0 <= b <= nblocks,
                self.in_map() == old(self).in_map(),
                self.out_map() == old(self).out_map(),
                self.uses_map() == old(self).uses_map(),
                self.defs_map() == old(self).defs_map(),
                self.nregs_spec() == nregs,
                self.nblocks_spec() == nb,
                self.sets_wf(),
                self.ranges_elementwise(*func),
                forall|bb: int, r: int|
                    0 <= bb < b && 0 <= r < nregs && #[trigger] self.in_of(bb).has_spec(r)
                        ==> self.rng_of(r).len() > 0,
                forall|bb: int, r: u32|
                    0 <= bb < b && r < nregs && #[trigger] defined_in(func.insts_of(bb), r)
                        ==> self.rng_of(r as int).len() > 0,
            decreases nblocks - b,
        {
            let block = Block::new(b);
            let ghost bi: int = b as int;
            let bd_len = func.get_block_data(block).len();
            proof {
                assert(self.in_of(bi).wf() && self.out_of(bi).wf());
            }
            let in_ones = self.live_in.get(block).iter_ones();
            let ghost ones = in_ones@.map_values(|u: usize| u as int);
            let ghost in_set = self.in_of(bi);
            proof {
                assert(ones == in_set.ones_below(in_set.capacity_spec()));
            }
            let mut oi: usize = 0;
            while oi < in_ones.len()
                invariant
                    0 <= oi <= in_ones@.len(),
                    ones == in_set.ones_below(in_set.capacity_spec()),
                    self.in_of(bi) == in_set,
                    ones == in_ones@.map_values(|u: usize| u as int),
                    0 <= bi < nb,
                    nblocks == nb,
                    bd_len == func.insts_of(bi).len(),
                    self.in_map() == old(self).in_map(),
                    self.out_map() == old(self).out_map(),
                    self.uses_map() == old(self).uses_map(),
                    self.defs_map() == old(self).defs_map(),
                    self.nregs_spec() == nregs,
                    self.nblocks_spec() == nb,
                    self.sets_wf(),
                    self.ranges_elementwise(*func),
                    block.0 == bi,
                    forall|bb: int, r: int|
                        0 <= bb < b && 0 <= r < nregs && #[trigger] self.in_of(bb).has_spec(r)
                            ==> self.rng_of(r).len() > 0,
                    forall|bb: int, r: u32|
                        0 <= bb < b && r < nregs && #[trigger] defined_in(func.insts_of(bb), r)
                            ==> self.rng_of(r as int).len() > 0,
                    forall|j: int|
                        0 <= j < oi && 0 <= #[trigger] ones[j] < nregs ==> self.rng_of(
                            ones[j],
                        ).len() > 0,
                decreases in_ones@.len() - oi,
            {
                let r = in_ones[oi];
                proof {
                    assert(ones[oi as int] == r as int);
                }
                if r < regs {
                    proof {
                        assert(self.out_of(bi).wf());
                    }
                    let is_out = self.live_out.get(block).has(r);
                    let end_idx: u32 = if is_out {
                        bd_len as u32
                    } else {
                        0
                    };
                    let ghost pre = *self;
                    let key: u32 = r as u32;
                    let list = self.live_ranges.get_mut(key);
                    list.push(
                        LiveRange {
                            reg: r as u32,
                            start: ProgramPoint { block, inst_index: 0 },
                            end: ProgramPoint { block, inst_index: end_idx },
                        },
                    );
                    proof {
                        assert(self.rng_map() =~= pre.rng_map().update(
                            r as int,
                            self.rng_map()[r as int],
                        ));
                        assert(self.rng_of(r as int).drop_last() =~= pre.rng_of(r as int));
                        lemma_elementwise_push(*self, pre, *func, r as int);
                        lemma_sets_wf_same(*self, pre);
                        assert forall|rr: int|
                            0 <= rr < nregs && (#[trigger] pre.rng_of(rr)).len()
                                > 0 implies self.rng_of(rr).len() > 0 by {
                            if rr != r as int {
                                assert(self.rng_of(rr) == pre.rng_of(rr));
                            }
                        }
                        assert(self.rng_of(r as int).len() > 0);
                        lemma_presence_carries(*self, pre, *func, b as int, b as int, bi, 0);
                    }
                }
                oi += 1;
            }
            proof {
                crate::support::bitset::lemma_ones_below_members(in_set, in_set.capacity_spec());
                assert forall|r: int|
                    0 <= r < nregs && #[trigger] self.in_of(bi).has_spec(r) implies self.rng_of(
                    r,
                ).len() > 0 by {
                    assert(in_set.has_spec(r));
                    assert(in_set.ones_below(in_set.capacity_spec()).contains(r));
                    let j = choose|j: int| 0 <= j < ones.len() && ones[j] == r;
                }
            }
            let mut idx: usize = 0;
            while idx < bd_len
                invariant
                    0 <= idx <= bd_len,
                    0 <= bi < nb,
                    nblocks == nb,
                    bd_len == func.insts_of(bi).len(),
                    bd_len < u32::MAX,
                    self.in_map() == old(self).in_map(),
                    self.out_map() == old(self).out_map(),
                    self.uses_map() == old(self).uses_map(),
                    self.defs_map() == old(self).defs_map(),
                    self.nregs_spec() == nregs,
                    self.nblocks_spec() == nb,
                    self.sets_wf(),
                    self.ranges_elementwise(*func),
                    block.0 == bi,
                    forall|bb: int, r: int|
                        0 <= bb < b && 0 <= r < nregs && #[trigger] self.in_of(bb).has_spec(r)
                            ==> self.rng_of(r).len() > 0,
                    forall|bb: int, r: u32|
                        0 <= bb < b && r < nregs && #[trigger] defined_in(func.insts_of(bb), r)
                            ==> self.rng_of(r as int).len() > 0,
                    forall|r: int|
                        0 <= r < nregs && #[trigger] self.in_of(bi).has_spec(r) ==> self.rng_of(
                            r,
                        ).len() > 0,
                    forall|r: u32|
                        r < nregs && #[trigger] defs_before(func.insts_of(bi), idx as int, r)
                            ==> self.rng_of(r as int).len() > 0,
                decreases bd_len - idx,
            {
                let inst = *func.get_block_data(block).get(idx);
                let point = ProgramPoint { block, inst_index: idx as u32 };
                let uses_list = inst.get_uses();
                let ul = uses_list.as_slice();
                let mut k: usize = 0;
                while k < ul.len()
                    invariant
                        0 <= k <= ul@.len(),
                        ul@ == func.insts_of(bi)[idx as int].spec_uses(),
                        0 <= idx < bd_len,
                        0 <= bi < nb,
                        nblocks == nb,
                        bd_len == func.insts_of(bi).len(),
                        point.block.0 == bi && point.inst_index == idx,
                        self.in_map() == old(self).in_map(),
                        self.out_map() == old(self).out_map(),
                        self.uses_map() == old(self).uses_map(),
                        self.defs_map() == old(self).defs_map(),
                        self.nregs_spec() == nregs,
                        self.nblocks_spec() == nb,
                        self.sets_wf(),
                        self.ranges_elementwise(*func),
                        block.0 == bi,
                        forall|bb: int, r: int|
                            0 <= bb < b && 0 <= r < nregs && #[trigger] self.in_of(bb).has_spec(r)
                                ==> self.rng_of(r).len() > 0,
                        forall|bb: int, r: u32|
                            0 <= bb < b && r < nregs && #[trigger] defined_in(func.insts_of(bb), r)
                                ==> self.rng_of(r as int).len() > 0,
                        forall|r: int|
                            0 <= r < nregs && #[trigger] self.in_of(bi).has_spec(r)
                                ==> self.rng_of(r).len() > 0,
                        forall|r: u32|
                            r < nregs && #[trigger] defs_before(func.insts_of(bi), idx as int, r)
                                ==> self.rng_of(r as int).len() > 0,
                    decreases ul@.len() - k,
                {
                    let r = ul[k];
                    proof {
                        assert(ul@[k as int] == r);
                        assert(ul@.contains(r)) by {
                            assert(ul@[k as int] == r);
                        }
                        assert(r < nregs);
                    }
                    let ghost pre = *self;
                    let list = self.live_ranges.get_mut(r);
                    let n = list.len();
                    if n > 0 {
                        let last = list[n - 1];
                        if pp_lt_pub(&last.end, &point) {
                            list[n - 1] = LiveRange { reg: last.reg, start: last.start, end: point };
                        }
                    }
                    proof {
                        assert(self.rng_map() =~= pre.rng_map().update(
                            r as int,
                            self.rng_map()[r as int],
                        ));
                        assert forall|k: int|
                            0 <= k < self.rng_of(r as int).len() implies (#[trigger] self.rng_of(
                            r as int,
                        )[k]).reg == r as int as u32 && pp_le(
                            self.rng_of(r as int)[k].start,
                            self.rng_of(r as int)[k].end,
                        ) && self.rng_of(r as int)[k].end.block.0 < func.num_blocks() by {
                            if k < self.rng_of(r as int).len() - 1 {
                                assert(self.rng_of(r as int)[k] == pre.rng_of(r as int)[k]);
                            } else {
                                if k < pre.rng_of(r as int).len() {
                                    assert(pre.rng_of(r as int)[k].reg == r as u32);
                                    assert(pp_le(
                                        pre.rng_of(r as int)[k].start,
                                        pre.rng_of(r as int)[k].end,
                                    ));
                                }
                            }
                        }
                        lemma_elementwise_touch(*self, pre, *func, r as int);
                        lemma_sets_wf_same(*self, pre);
                        assert forall|rr: int|
                            0 <= rr < nregs && (#[trigger] pre.rng_of(rr)).len()
                                > 0 implies self.rng_of(rr).len() > 0 by {
                            if rr != r as int {
                                assert(self.rng_of(rr) == pre.rng_of(rr));
                            }
                        }
                        lemma_presence_carries(*self, pre, *func, b as int + 1, b as int, bi, idx as int);
                    }
                    k += 1;
                }
                let defs_list = inst.get_defs();
                let dl = defs_list.as_slice();
                let mut m: usize = 0;
                while m < dl.len()
                    invariant
                        0 <= m <= dl@.len(),
                        dl@ == func.insts_of(bi)[idx as int].spec_defs(),
                        0 <= idx < bd_len,
                        0 <= bi < nb,
                        nblocks == nb,
                        bd_len == func.insts_of(bi).len(),
                        point.block.0 == bi && point.inst_index == idx,
                        self.in_map() == old(self).in_map(),
                        self.out_map() == old(self).out_map(),
                        self.uses_map() == old(self).uses_map(),
                        self.defs_map() == old(self).defs_map(),
                        self.nregs_spec() == nregs,
                        self.nblocks_spec() == nb,
                        self.sets_wf(),
                        self.ranges_elementwise(*func),
                        block.0 == bi,
                        forall|bb: int, r: int|
                            0 <= bb < b && 0 <= r < nregs && #[trigger] self.in_of(bb).has_spec(r)
                                ==> self.rng_of(r).len() > 0,
                        forall|bb: int, r: u32|
                            0 <= bb < b && r < nregs && #[trigger] defined_in(func.insts_of(bb), r)
                                ==> self.rng_of(r as int).len() > 0,
                        forall|r: int|
                            0 <= r < nregs && #[trigger] self.in_of(bi).has_spec(r)
                                ==> self.rng_of(r).len() > 0,
                        forall|r: u32|
                            r < nregs && #[trigger] defs_before(func.insts_of(bi), idx as int, r)
                                ==> self.rng_of(r as int).len() > 0,
                        forall|mm: int|
                            0 <= mm < m ==> self.rng_of((#[trigger] dl@[mm]) as int).len() > 0,
                    decreases dl@.len() - m,
                {
                    let r = dl[m];
                    proof {
                        assert(dl@[m as int] == r);
                        assert(dl@.contains(r)) by {
                            assert(dl@[m as int] == r);
                        }
                        assert(r < nregs);
                    }
                    let ghost pre = *self;
                    let list = self.live_ranges.get_mut(r);
                    let n = list.len();
                    let covered = if n > 0 {
                        let last = list[n - 1];
                        pp_le_pub(&point, &last.end)
                    } else {
                        false
                    };
                    if !covered {
                        list.push(LiveRange { reg: r, start: point, end: point });
                    }
                    proof {
                        assert(self.rng_map() =~= pre.rng_map().update(
                            r as int,
                            self.rng_map()[r as int],
                        ));
                        assert forall|k: int|
                            0 <= k < self.rng_of(r as int).len() implies (#[trigger] self.rng_of(
                            r as int,
                        )[k]).reg == r as int as u32 && pp_le(
                            self.rng_of(r as int)[k].start,
                            self.rng_of(r as int)[k].end,
                        ) && self.rng_of(r as int)[k].end.block.0 < func.num_blocks() by {
                            if k < self.rng_of(r as int).len() - 1 {
                                assert(self.rng_of(r as int)[k] == pre.rng_of(r as int)[k]);
                            } else {
                                if k < pre.rng_of(r as int).len() {
                                    assert(pre.rng_of(r as int)[k].reg == r as u32);
                                    assert(pp_le(
                                        pre.rng_of(r as int)[k].start,
                                        pre.rng_of(r as int)[k].end,
                                    ));
                                }
                            }
                        }
                        lemma_elementwise_touch(*self, pre, *func, r as int);
                        lemma_sets_wf_same(*self, pre);
                        assert forall|rr: int|
                            0 <= rr < nregs && (#[trigger] pre.rng_of(rr)).len()
                                > 0 implies self.rng_of(rr).len() > 0 by {
                            if rr != r as int {
                                assert(self.rng_of(rr) == pre.rng_of(rr));
                            }
                        }
                        assert(self.rng_of(r as int).len() > 0);
                        lemma_presence_carries(*self, pre, *func, b as int + 1, b as int, bi, idx as int);
                    }
                    m += 1;
                }
                proof {
                    assert forall|r: u32|
                        r < nregs && #[trigger] defs_before(
                            func.insts_of(bi),
                            idx + 1,
                            r,
                        ) implies self.rng_of(r as int).len() > 0 by {
                        if !defs_before(func.insts_of(bi), idx as int, r) {
                            let j = choose|j: int|
                                0 <= j < idx + 1 && (#[trigger] func.insts_of(
                                    bi,
                                )[j]).spec_defs().contains(r);
                            assert(j == idx);
                            let mm = choose|mm: int| 0 <= mm < dl@.len() && dl@[mm] == r;
                        }
                    }
                }
                idx += 1;
            }
            proof {
                assert(self.out_of(bi).wf());
            }
            let out_ones = self.live_out.get(block).iter_ones();
            let mut zi: usize = 0;
            while zi < out_ones.len()
                invariant
                    0 <= zi <= out_ones@.len(),
                    0 <= bi < nb,
                    nblocks == nb,
                    bd_len == func.insts_of(bi).len(),
                    bd_len < u32::MAX,
                    self.in_map() == old(self).in_map(),
                    self.out_map() == old(self).out_map(),
                    self.uses_map() == old(self).uses_map(),
                    self.defs_map() == old(self).defs_map(),
                    self.nregs_spec() == nregs,
                    self.nblocks_spec() == nb,
                    self.sets_wf(),
                    self.ranges_elementwise(*func),
                    block.0 == bi,
                    forall|bb: int, r: int|
                        0 <= bb < b && 0 <= r < nregs && #[trigger] self.in_of(bb).has_spec(r)
                            ==> self.rng_of(r).len() > 0,
                    forall|bb: int, r: u32|
                        0 <= bb < b && r < nregs && #[trigger] defined_in(func.insts_of(bb), r)
                            ==> self.rng_of(r as int).len() > 0,
                    forall|r: int|
                        0 <= r < nregs && #[trigger] self.in_of(bi).has_spec(r) ==> self.rng_of(
                            r,
                        ).len() > 0,
                    forall|r: u32|
                        r < nregs && #[trigger] defs_before(func.insts_of(bi), bd_len as int, r)
                            ==> self.rng_of(r as int).len() > 0,
                decreases out_ones@.len() - zi,
            {
                let r = out_ones[zi];
                if r < regs {
                    let endp = ProgramPoint { block, inst_index: bd_len as u32 };
                    let ghost pre = *self;
                    let key: u32 = r as u32;
                    let list = self.live_ranges.get_mut(key);
                    let n = list.len();
                    if n > 0 {
                        let last = list[n - 1];
                        if pp_lt_pub(&last.end, &endp) {
                            list[n - 1] = LiveRange { reg: last.reg, start: last.start, end: endp };
                        }
                    }
                    proof {
                        assert(self.rng_map() =~= pre.rng_map().update(
                            r as int,
                            self.rng_map()[r as int],
                        ));
                        assert forall|k: int|
                            0 <= k < self.rng_of(r as int).len() implies (#[trigger] self.rng_of(
                            r as int,
                        )[k]).reg == r as int as u32 && pp_le(
                            self.rng_of(r as int)[k].start,
                            self.rng_of(r as int)[k].end,
                        ) && self.rng_of(r as int)[k].end.block.0 < func.num_blocks() by {
                            if k < self.rng_of(r as int).len() - 1 {
                                assert(self.rng_of(r as int)[k] == pre.rng_of(r as int)[k]);
                            } else {
                                if k < pre.rng_of(r as int).len() {
                                    assert(pre.rng_of(r as int)[k].reg == r as u32);
                                    assert(pp_le(
                                        pre.rng_of(r as int)[k].start,
                                        pre.rng_of(r as int)[k].end,
                                    ));
                                }
                            }
                        }
                        lemma_elementwise_touch(*self, pre, *func, r as int);
                        lemma_sets_wf_same(*self, pre);
                        assert forall|rr: int|
                            0 <= rr < nregs && (#[trigger] pre.rng_of(rr)).len()
                                > 0 implies self.rng_of(rr).len() > 0 by {
                            if rr != r as int {
                                assert(self.rng_of(rr) == pre.rng_of(rr));
                            }
                        }
                        lemma_presence_carries(*self, pre, *func, b as int + 1, b as int, bi, bd_len as int);
                    }
                }
                zi += 1;
            }
            proof {
                assert forall|bb: int, r: int|
                    0 <= bb < b + 1 && 0 <= r < nregs && #[trigger] self.in_of(bb).has_spec(
                        r,
                    ) implies self.rng_of(r).len() > 0 by {}
                assert forall|bb: int, r: u32|
                    0 <= bb < b + 1 && r < nregs && #[trigger] defined_in(
                        func.insts_of(bb),
                        r,
                    ) implies self.rng_of(r as int).len() > 0 by {
                    if bb == b {
                        assert(defs_before(func.insts_of(bi), bd_len as int, r));
                    }
                }
            }
            b += 1;
        }
        let ghost before_merge = *self;
        self.merge_intervals(func);
        proof {
            lemma_sets_wf_same(*self, before_merge);
            assert forall|bb: int, r: int|
                0 <= bb < self.nblocks_spec() && 0 <= r < self.nregs_spec()
                    && #[trigger] self.in_of(bb).has_spec(r) implies self.rng_of(r).len() > 0 by {
                assert(before_merge.in_of(bb) == self.in_of(bb));
                assert(before_merge.rng_of(r).len() > 0);
            }
            assert forall|bb: int, r: u32|
                0 <= bb < self.nblocks_spec() && r < self.nregs_spec() && #[trigger] defined_in(
                    func.insts_of(bb),
                    r,
                ) implies self.rng_of(r as int).len() > 0 by {
                assert(before_merge.rng_of(r as int).len() > 0);
            }
            assert(ranges_present(*self, *func));
        }
    }
}

/// A change that shrinks no range list carries every presence fact —
/// live-in presence over the first `nbb` blocks, definition presence over
/// the first `nbb` blocks, and definition-prefix presence at block `bi` —
/// from `pre` to `post`.
proof fn lemma_presence_carries<I: Inst>(
    post: LivenessAnalysis,
    pre: LivenessAnalysis,
    f: Func<I>,
    nbb: int,
    ndef: int,
    bi: int,
    i: int,
)
    requires
        post.in_map() == pre.in_map(),
        post.nregs_spec() == pre.nregs_spec(),
        forall|bb: int, r: int|
            0 <= bb < nbb && 0 <= r < pre.nregs_spec() && #[trigger] pre.in_of(bb).has_spec(r)
                ==> pre.rng_of(r).len() > 0,
        forall|bb: int, r: u32|
            0 <= bb < ndef && r < pre.nregs_spec() && #[trigger] defined_in(f.insts_of(bb), r)
                ==> pre.rng_of(r as int).len() > 0,
        forall|r: u32|
            r < pre.nregs_spec() && #[trigger] defs_before(f.insts_of(bi), i, r) ==> pre.rng_of(
                r as int,
            ).len() > 0,
        forall|rr: int|
            0 <= rr < pre.nregs_spec() && (#[trigger] pre.rng_of(rr)).len() > 0 ==> post.rng_of(
                rr,
            ).len() > 0,
    ensures
        forall|bb: int, r: int|
            0 <= bb < nbb && 0 <= r < post.nregs_spec() && #[trigger] post.in_of(bb).has_spec(r)
                ==> post.rng_of(r).len() > 0,
        forall|bb: int, r: u32|
            0 <= bb < ndef && r < post.nregs_spec() && #[trigger] defined_in(f.insts_of(bb), r)
                ==> post.rng_of(r as int).len() > 0,
        forall|r: u32|
            r < post.nregs_spec() && #[trigger] defs_before(f.insts_of(bi), i, r) ==> post.rng_of(
                r as int,
            ).len() > 0,
{
    assert forall|bb: int, r: int|
        0 <= bb < nbb && 0 <= r < post.nregs_spec() && #[trigger] post.in_of(bb).has_spec(
            r,
        ) implies post.rng_of(r).len() > 0 by {
        assert(post.in_of(bb) == pre.in_of(bb));
        assert(pre.in_of(bb).has_spec(r));
        assert(pre.rng_of(r).len() > 0);
    }
    assert forall|bb: int, r: u32|
        0 <= bb < ndef && r < post.nregs_spec() && #[trigger] defined_in(
            f.insts_of(bb),
            r,
        ) implies post.rng_of(r as int).len() > 0 by {
        assert(pre.rng_of(r as int).len() > 0);
    }
    assert forall|r: u32|
        r < post.nregs_spec() && #[trigger] defs_before(f.insts_of(bi), i, r) implies post.rng_of(
            r as int,
        ).len() > 0 by {
        assert(pre.rng_of(r as int).len() > 0);
    }
}

/// Appending a forward range of a list's own register inside the function
/// keeps the elementwise facts.
proof fn lemma_elementwise_push<I: Inst>(
    post: LivenessAnalysis,
    pre: LivenessAnalysis,
    f: Func<I>,
    r: int,
)
    requires
        pre.ranges_elementwise(f),
        0 <= r < pre.nregs_spec(),
        post.nregs_spec() == pre.nregs_spec(),
        post.rng_map() == pre.rng_map().update(r, post.rng_map()[r]),
        post.rng_of(r).len() == pre.rng_of(r).len() + 1,
        post.rng_of(r).drop_last() == pre.rng_of(r),
        post.rng_of(r).last().reg == r as u32,
        pp_le(post.rng_of(r).last().start, post.rng_of(r).last().end),
        post.rng_of(r).last().end.block.0 < f.num_blocks(),
    ensures
        post.ranges_elementwise(f),
{
    assert forall|rr: int, k: int|
        0 <= rr < post.nregs_spec() && 0 <= k < post.rng_of(rr).len() implies (
    #[trigger] post.rng_of(rr)[k]).reg == rr as u32 && pp_le(
        post.rng_of(rr)[k].start,
        post.rng_of(rr)[k].end,
    ) && post.rng_of(rr)[k].end.block.0 < f.num_blocks() by {
        if rr != r {
            assert(post.rng_of(rr) == pre.rng_of(rr));
        } else {
            if k < pre.rng_of(r).len() {
                assert(post.rng_of(r)[k] == post.rng_of(r).drop_last()[k]);
                assert(post.rng_of(r)[k] == pre.rng_of(r)[k]);
            } else {
                assert(post.rng_of(r)[k] == post.rng_of(r).last());
            }
        }
    }
}

/// A change confined to one list that keeps its elementwise facts keeps
/// them for all lists.
proof fn lemma_elementwise_touch<I: Inst>(
    post: LivenessAnalysis,
    pre: LivenessAnalysis,
    f: Func<I>,
    r: int,
)
    requires
        pre.ranges_elementwise(f),
        0 <= r < pre.nregs_spec(),
        post.nregs_spec() == pre.nregs_spec(),
        post.rng_map() == pre.rng_map().update(r, post.rng_map()[r]),
        forall|k: int|
            0 <= k < post.rng_of(r).len() ==> (#[trigger] post.rng_of(r)[k]).reg == r as u32
                && pp_le(post.rng_of(r)[k].start, post.rng_of(r)[k].end) && post.rng_of(
                r,
            )[k].end.block.0 < f.num_blocks(),
    ensures
        post.ranges_elementwise(f),
{
    assert forall|rr: int, k: int|
        0 <= rr < post.nregs_spec() && 0 <= k < post.rng_of(rr).len() implies (
    #[trigger] post.rng_of(rr)[k]).reg == rr as u32 && pp_le(
        post.rng_of(rr)[k].start,
        post.rng_of(rr)[k].end,
    ) && post.rng_of(rr)[k].end.block.0 < f.num_blocks() by {
        if rr != r {
            assert(post.rng_of(rr) == pre.rng_of(rr));
        }
    }
}

} // verus!
verus! {

impl LivenessAnalysis {
    /// Runs the whole analysis for `func` under its control-flow graph
    /// `cfg`: local sets, the backward fixed point, and merged ranges.
    #[verifier::rlimit(100)]
    #[verifier::spinoff_prover]
    #[verifier::loop_isolation(false)]
    pub fn new<I: Inst>(func: &Func<I>, cfg: &CFG) -> (r: Self)
        requires
            cfg.wf(),
            cfg.entry_spec() == Block(0),
            1 <= cfg.nblocks() <= u16::MAX,
            func.num_blocks() == cfg.nblocks(),
            func_regs_in_range(*func),
            func.regs_count_spec() + 31 <= usize::MAX,
            forall|b: int|
                0 <= b < func.num_blocks() ==> #[trigger] func.insts_of(b).len() < u32::MAX,
        ensures
            liveness_for(r, *func, *cfg),
    {
        let regs_count = func.get_regs_count();
        let nb = cfg.blocks_count();
        let ghost nbg: int = nb as int;
        let mut in_vec: Vec<FixedBitSet> = Vec::new();
        let mut out_vec: Vec<FixedBitSet> = Vec::new();
        let mut uses_vec: Vec<FixedBitSet> = Vec::new();
        let mut defs_vec: Vec<FixedBitSet> = Vec::new();
        let mut i: usize = 0;
        while i < nb
            invariant
                0 <= i <= nb,
                regs_count == func.regs_count_spec(),
                regs_count + 31 <= usize::MAX,
                in_vec@.len() == i && out_vec@.len() == i && uses_vec@.len() == i && defs_vec@.len()
                    == i,
                forall|b: int|
                    0 <= b < i ==> (#[trigger] in_vec@[b]).nwords() == (regs_count + 31) / 32
                        && in_vec@[b].wf() && (forall|r: int| !(#[trigger] in_vec@[b].has_spec(r))),
                forall|b: int|
                    0 <= b < i ==> (#[trigger] out_vec@[b]).nwords() == (regs_count + 31) / 32
                        && out_vec@[b].wf() && (forall|r: int|
                        !(#[trigger] out_vec@[b].has_spec(r))),
                forall|b: int|
                    0 <= b < i ==> (#[trigger] uses_vec@[b]).nwords() == (regs_count + 31) / 32
                        && uses_vec@[b].wf() && (forall|r: int|
                        !(#[trigger] uses_vec@[b].has_spec(r))),
                forall|b: int|
                    0 <= b < i ==> (#[trigger] defs_vec@[b]).nwords() == (regs_count + 31) / 32
                        && defs_vec@[b].wf() && (forall|r: int|
                        !(#[trigger] defs_vec@[b].has_spec(r))),
            decreases nb - i,
        {
            in_vec.push(FixedBitSet::zeroes(regs_count));
            out_vec.push(FixedBitSet::zeroes(regs_count));
            uses_vec.push(FixedBitSet::zeroes(regs_count));
            defs_vec.push(FixedBitSet::zeroes(regs_count));
            i += 1;
        }
        let mut rng_vec: Vec<Vec<LiveRange>> = Vec::new();
        let mut j: usize = 0;
        while j < regs_count
            invariant
                0 <= j <= regs_count,
                rng_vec@.len() == j,
                forall|r: int| 0 <= r < j ==> (#[trigger] rng_vec@[r])@ == Seq::<LiveRange>::empty(),
            decreases regs_count - j,
        {
            rng_vec.push(Vec::new());
            j += 1;
        }
        let mut analysis = LivenessAnalysis {
            live_in: SecondaryMap::from_vec(in_vec),
            live_out: SecondaryMap::from_vec(out_vec),
            uses: SecondaryMap::from_vec(uses_vec),
            defs: SecondaryMap::from_vec(defs_vec),
            live_ranges: SecondaryMap::from_vec(rng_vec),
            vregs_count: regs_count,
        };
        proof {
            assert(analysis.nblocks_spec() == nbg);
            assert(analysis.nregs_spec() == regs_count);
            assert(analysis.sets_wf());
            assert(analysis.ranges_elementwise(*func));
            assert forall|b: int| 0 <= b < nbg implies #[trigger] analysis.untouched(b) by {}
            assert forall|b: int|
                0 <= b < nbg implies #[trigger] analysis.locals_empty_at(b) by {}
        }
        let mut bi: usize = 0;
        while bi < nb
            invariant
                0 <= bi <= nb,
                nbg == nb,
                analysis.sets_wf(),
                analysis.nblocks_spec() == nbg,
                analysis.nregs_spec() == func.regs_count_spec(),
                func_regs_in_range(*func),
                func.num_blocks() == nbg,
                nbg <= u16::MAX,
                forall|b: int| 0 <= b < nbg ==> #[trigger] analysis.untouched(b),
                forall|b: int| bi <= b < nbg ==> #[trigger] analysis.locals_empty_at(b),
                forall|b: int| 0 <= b < bi ==> #[trigger] analysis.locals_exact_at(*func, b),
                analysis.ranges_elementwise(*func),
            decreases nb - bi,
        {
            let block = Block::new(bi);
            let ghost pre = analysis;
            proof {
                assert(block.0 as int == bi as int);
                assert(analysis.locals_empty_at(bi as int));
                assert forall|r: int|
                    !(#[trigger] analysis.uses_of(block.0 as int).has_spec(r)) by {
                    assert(!analysis.uses_of(bi as int).has_spec(r));
                }
                assert forall|r: int|
                    !(#[trigger] analysis.defs_of(block.0 as int).has_spec(r)) by {
                    assert(!analysis.defs_of(bi as int).has_spec(r));
                }
            }
            analysis.init_block(block, func);
            proof {
                assert(analysis.in_map() == pre.in_map());
                assert(analysis.out_map() == pre.out_map());
                assert forall|b: int|
                    0 <= b < nbg implies #[trigger] analysis.untouched(b) by {
                    assert(analysis.in_of(b) == pre.in_of(b));
                    assert(analysis.out_of(b) == pre.out_of(b));
                    assert(pre.untouched(b));
                }
                assert forall|b: int|
                    bi + 1 <= b < nbg implies #[trigger] analysis.locals_empty_at(b) by {
                    assert(analysis.uses_of(b) == pre.uses_of(b));
                    assert(analysis.defs_of(b) == pre.defs_of(b));
                    assert(pre.locals_empty_at(b));
                }
                assert forall|b: int|
                    0 <= b < bi + 1 implies #[trigger] analysis.locals_exact_at(*func, b) by {
                    if b < bi {
                        assert(pre.locals_exact_at(*func, b));
                        assert(analysis.uses_of(b) == pre.uses_of(b));
                        assert(analysis.defs_of(b) == pre.defs_of(b));
                        assert forall|r: int|
                            #![trigger analysis.uses_of(b).has_spec(r)]
                            analysis.uses_of(b).has_spec(r) == (0 <= r < analysis.nregs_spec()
                                && upward_exposed(func.insts_of(b), r as u32)) by {
                            assert(pre.uses_of(b).has_spec(r) == (0 <= r < pre.nregs_spec()
                                && upward_exposed(func.insts_of(b), r as u32)));
                        }
                        assert forall|r: int|
                            #![trigger analysis.defs_of(b).has_spec(r)]
                            analysis.defs_of(b).has_spec(r) == (0 <= r < analysis.nregs_spec()
                                && defined_in(func.insts_of(b), r as u32)) by {
                            assert(pre.defs_of(b).has_spec(r) == (0 <= r < pre.nregs_spec()
                                && defined_in(func.insts_of(b), r as u32)));
                        }
                    }
                }
                assert(analysis.ranges_elementwise(*func)) by {
                    assert forall|r: int, k: int|
                        0 <= r < analysis.nregs_spec() && 0 <= k < analysis.rng_of(
                            r,
                        ).len() implies (#[trigger] analysis.rng_of(r)[k]).reg == r as u32
                        && pp_le(analysis.rng_of(r)[k].start, analysis.rng_of(r)[k].end)
                        && analysis.rng_of(r)[k].end.block.0 < func.num_blocks() by {
                        assert(analysis.rng_of(r) == pre.rng_of(r));
                    }
                }
            }
            bi += 1;
        }
        proof {
            assert forall|b: int| 0 <= b < nbg implies #[trigger] analysis.untouched(b) by {}
        }
        let ghost before_flow = analysis;
        proof {
            assert forall|b: int, r: int|
                0 <= b < analysis.nblocks_spec() && #[trigger] analysis.uses_of(b).has_spec(
                    r,
                ) implies 0 <= r < analysis.nregs_spec() by {
                assert(analysis.locals_exact_at(*func, b));
            }
        }
        analysis.construct(func, cfg);
        let ghost after_flow = analysis;
        proof {
            assert(analysis.rng_map() == before_flow.rng_map());
            assert forall|r: int, k: int|
                0 <= r < analysis.nregs_spec() && 0 <= k < analysis.rng_of(r).len() implies (
            #[trigger] analysis.rng_of(r)[k]).reg == r as u32 && pp_le(
                analysis.rng_of(r)[k].start,
                analysis.rng_of(r)[k].end,
            ) && analysis.rng_of(r)[k].end.block.0 < func.num_blocks() by {
                assert(analysis.rng_of(r) == before_flow.rng_of(r));
            }
        }
        analysis.compute_live_ranges(func, cfg);
        proof {
            assert forall|b: int|
                0 <= b < analysis.nblocks_spec() implies #[trigger] analysis.locals_exact_at(
                *func,
                b,
            ) by {
                assert(analysis.uses_map()[b] == after_flow.uses_map()[b]);
                assert(analysis.uses_of(b) == after_flow.uses_of(b));
                assert(analysis.defs_of(b) == after_flow.defs_of(b));
                assert(after_flow.uses_map()[b] == before_flow.uses_map()[b]);
                assert(after_flow.uses_of(b) == before_flow.uses_of(b));
                assert(after_flow.defs_of(b) == before_flow.defs_of(b));
                assert(before_flow.locals_exact_at(*func, b));
                assert forall|r: int|
                    #![trigger analysis.uses_of(b).has_spec(r)]
                    analysis.uses_of(b).has_spec(r) == (0 <= r < analysis.nregs_spec()
                        && upward_exposed(func.insts_of(b), r as u32)) by {
                    assert(before_flow.uses_of(b).has_spec(r) == (0 <= r < before_flow.nregs_spec()
                        && upward_exposed(func.insts_of(b), r as u32)));
                }
                assert forall|r: int|
                    #![trigger analysis.defs_of(b).has_spec(r)]
                    analysis.defs_of(b).has_spec(r) == (0 <= r < analysis.nregs_spec()
                        && defined_in(func.insts_of(b), r as u32)) by {
                    assert(before_flow.defs_of(b).has_spec(r) == (0 <= r < before_flow.nregs_spec()
                        && defined_in(func.insts_of(b), r as u32)));
                }
            }
            assert forall|b: u16|
                #![trigger crate::tir::cfg::reachable(*cfg, b)]
                crate::tir::cfg::reachable(*cfg, b) && b < analysis.nblocks_spec() implies analysis.eq_at(
                b as int,
            ) by {
                assert(after_flow.eq_at(b as int));
                assert(analysis.in_of(b as int) == after_flow.in_of(b as int));
                assert(analysis.out_of(b as int) == after_flow.out_of(b as int));
                assert(analysis.uses_of(b as int) == after_flow.uses_of(b as int));
                assert(analysis.defs_of(b as int) == after_flow.defs_of(b as int));
            }
            assert forall|b: int|
                0 <= b < analysis.nblocks_spec() implies #[trigger] out_exact_at(
                analysis,
                *cfg,
                b,
            ) by {
                assert(out_exact_at(after_flow, *cfg, b));
                assert(analysis.out_of(b) == after_flow.out_of(b));
                assert forall|r: int|
                    #![trigger analysis.out_of(b).has_spec(r)]
                    analysis.out_of(b).has_spec(r) == (exists|j: int|
                        0 <= j < cfg.succs_of(b).len() && analysis.in_of(
                            cfg.succs_of(b)[j] as int,
                        ).has_spec(r)) by {
                    if after_flow.out_of(b).has_spec(r) {
                        let j = choose|j: int|
                            0 <= j < cfg.succs_of(b).len() && after_flow.in_of(
                                cfg.succs_of(b)[j] as int,
                            ).has_spec(r);
                        assert(analysis.in_of(cfg.succs_of(b)[j] as int) == after_flow.in_of(
                            cfg.succs_of(b)[j] as int,
                        ));
                    } else {
                        if exists|j: int|
                            0 <= j < cfg.succs_of(b).len() && analysis.in_of(
                                cfg.succs_of(b)[j] as int,
                            ).has_spec(r) {
                            let j = choose|j: int|
                                0 <= j < cfg.succs_of(b).len() && analysis.in_of(
                                    cfg.succs_of(b)[j] as int,
                                ).has_spec(r);
                            assert(after_flow.in_of(cfg.succs_of(b)[j] as int) == analysis.in_of(
                                cfg.succs_of(b)[j] as int,
                            ));
                            assert(after_flow.out_of(b).has_spec(r));
                        }
                    }
                }
            }
            assert(out_exact_all(analysis, *cfg));
            assert(sets_bounded(analysis)) by {
                assert forall|b: int, r: int|
                    0 <= b < analysis.nblocks_spec() && #[trigger] analysis.in_of(b).has_spec(
                        r,
                    ) implies 0 <= r < analysis.nregs_spec() by {
                    assert(analysis.in_of(b) == after_flow.in_of(b));
                    assert(after_flow.in_of(b).has_spec(r));
                }
                assert forall|b: int, r: int|
                    0 <= b < analysis.nblocks_spec() && #[trigger] analysis.out_of(b).has_spec(
                        r,
                    ) implies 0 <= r < analysis.nregs_spec() by {
                    assert(analysis.out_of(b) == after_flow.out_of(b));
                    assert(after_flow.out_of(b).has_spec(r));
                }
            }
            assert(liveness_for(analysis, *func, *cfg));
        }
        analysis
    }

    /// The merged live ranges of register `reg`.
    pub fn get_life_ranges(&self, reg: Reg) -> (r: &Vec<LiveRange>)
        requires
            reg < self.nregs_spec(),
        ensures
            r@ == self.rng_of(reg as int),
    {
        self.live_ranges.get(reg)
    }

    /// The live-in set of `block`.
    pub fn live_in(&self, block: Block) -> (r: &FixedBitSet)
        requires
            block.0 < self.nblocks_spec(),
        ensures
            *r == self.in_of(block.0 as int),
    {
        self.live_in.get(block)
    }

    /// The live-out set of `block`.
    pub fn live_out(&self, block: Block) -> (r: &FixedBitSet)
        requires
            block.0 < self.nblocks_spec(),
            self.sets_wf(),
        ensures
            *r == self.out_of(block.0 as int),
    {
        self.live_out.get(block)
    }

    /// All live ranges of virtual registers — the ids at or above
    /// `preg_count` — sorted ascending by start point: exactly the stored
    /// ranges of every register id in `[preg_count, nregs)`, as one list.
    pub fn get_vreg_live_ranges(&self, preg_count: u32) -> (r: Vec<LiveRange>)
        requires
            self.ranges_wf_all(),
            self.nregs_spec() <= u32::MAX,
        ensures
            ranges_sorted(r@),
            r@.to_multiset() == ranges_between(*self, preg_count as int, self.nregs_spec()),
            forall|k: int|
                0 <= k < r@.len() ==> preg_count <= (#[trigger] r@[k]).reg < self.nregs_spec()
                    && pp_le(r@[k].start, r@[k].end),
            forall|k1: int, k2: int|
                0 <= k1 < k2 < r@.len() && (#[trigger] r@[k1]).reg == (#[trigger] r@[k2]).reg
                    ==> pp_lt(r@[k1].end, r@[k2].start),
    {
        let mut out: Vec<LiveRange> = Vec::new();
        let cap = self.live_ranges.capacity();
        let mut reg: usize = preg_count as usize;
        proof {
            broadcast use vstd::seq_lib::group_to_multiset_ensures;

            assert(out@.to_multiset() =~= ranges_between(
                *self,
                preg_count as int,
                preg_count as int,
            ));
        }
        while reg < cap
            invariant
                self.ranges_wf_all(),
                self.nregs_spec() <= u32::MAX,
                cap == self.nregs_spec(),
                preg_count <= reg <= cap || (cap <= preg_count && reg == preg_count),
                out@.to_multiset() == ranges_between(*self, preg_count as int, reg as int),
                forall|k: int|
                    0 <= k < out@.len() ==> preg_count <= (#[trigger] out@[k]).reg < cap && pp_le(
                        out@[k].start,
                        out@[k].end,
                    ),
            decreases cap - reg,
        {
            let key: u32 = reg as u32;
            proof {
                assert((key as usize) == reg);
            }
            let list = self.live_ranges.get(key);
            proof {
                assert(ranges_wf(self.rng_of(reg as int), (reg as int) as u32));
            }
            let ghost base = out@.to_multiset();
            proof {
                broadcast use vstd::seq_lib::group_to_multiset_ensures;

                assert(list@.subrange(0, 0) =~= Seq::<LiveRange>::empty());
                assert(base.add(list@.subrange(0, 0).to_multiset()) =~= base);
            }
            let mut k: usize = 0;
            while k < list.len()
                invariant
                    0 <= k <= list@.len(),
                    list@ == self.rng_of(reg as int),
                    preg_count <= reg < cap,
                    cap == self.nregs_spec(),
                    self.nregs_spec() <= u32::MAX,
                    ranges_wf(list@, reg as u32),
                    base == ranges_between(*self, preg_count as int, reg as int),
                    out@.to_multiset() == base.add(list@.subrange(0, k as int).to_multiset()),
                    forall|kk: int|
                        0 <= kk < out@.len() ==> preg_count <= (#[trigger] out@[kk]).reg < cap
                            && pp_le(out@[kk].start, out@[kk].end),
                decreases list@.len() - k,
            {
                proof {
                    assert(list@[k as int].reg == reg as u32);
                    assert(pp_le(list@[k as int].start, list@[k as int].end));
                }
                let ghost pre_out = out@;
                out.push(list[k]);
                proof {
                    broadcast use vstd::seq_lib::group_to_multiset_ensures;

                    assert(out@ == pre_out.push(list@[k as int]));
                    assert(out@.to_multiset() =~= pre_out.to_multiset().insert(list@[k as int]));
                    assert(list@.subrange(0, k + 1) =~= list@.subrange(0, k as int).push(
                        list@[k as int],
                    ));
                    assert(list@.subrange(0, k + 1).to_multiset() =~= list@.subrange(
                        0,
                        k as int,
                    ).to_multiset().insert(list@[k as int]));
                    assert(base.add(list@.subrange(0, k + 1).to_multiset()) =~= base.add(
                        list@.subrange(0, k as int).to_multiset(),
                    ).insert(list@[k as int]));
                }
                k += 1;
            }
            proof {
                broadcast use vstd::seq_lib::group_to_multiset_ensures;

                assert(list@.subrange(0, list@.len() as int) =~= list@);
                assert(out@.to_multiset() == base.add(self.rng_of(reg as int).to_multiset()));
                assert(ranges_between(*self, preg_count as int, reg + 1) == ranges_between(
                    *self,
                    preg_count as int,
                    reg as int,
                ).add(self.rng_of(reg as int).to_multiset()));
            }
            reg += 1;
        }
        proof {
            assert(out@.to_multiset() == ranges_between(
                *self,
                preg_count as int,
                self.nregs_spec(),
            )) by {
                if (cap as int) <= preg_count as int {
                    assert(ranges_between(*self, preg_count as int, cap as int)
                        == Multiset::<LiveRange>::empty());
                    assert(out@.to_multiset() == ranges_between(
                        *self,
                        preg_count as int,
                        preg_count as int,
                    ));
                    assert(ranges_between(*self, preg_count as int, preg_count as int)
                        == Multiset::<LiveRange>::empty());
                }
            }
        }
        let ghost presort = out@;
        sort_ranges(&mut out);
        proof {
            broadcast use vstd::seq_lib::group_to_multiset_ensures;

            assert forall|k: int|
                0 <= k < out@.len() implies preg_count <= (#[trigger] out@[k]).reg
                < self.nregs_spec() && pp_le(out@[k].start, out@[k].end) by {
                let x = out@[k];
                assert(out@.contains(x));
                assert(out@.to_multiset().count(x) > 0);
                assert(presort.to_multiset().count(x) > 0);
                assert(presort.contains(x));
                let kk = choose|kk: int| 0 <= kk < presort.len() && presort[kk] == x;
            }
            assert forall|v: LiveRange|
                #[trigger] out@.to_multiset().contains(v) implies out@.to_multiset().count(v)
                == 1 by {
                lemma_ranges_between_count(*self, preg_count as int, self.nregs_spec(), v);
                assert(out@.to_multiset().count(v) > 0);
                lemma_wf_no_duplicates(self.rng_of(v.reg as int), v.reg);
                self.rng_of(v.reg as int).lemma_multiset_has_no_duplicates();
            }
            out@.lemma_multiset_has_no_duplicates_conv();
            assert forall|k1: int, k2: int|
                0 <= k1 < k2 < out@.len() && (#[trigger] out@[k1]).reg == (
                #[trigger] out@[k2]).reg implies pp_lt(out@[k1].end, out@[k2].start) by {
                let x = out@[k1];
                let y = out@[k2];
                assert(x != y);
                assert(range_le(x, y));
                assert(out@.contains(x) && out@.contains(y));
                assert(out@.to_multiset().count(x) > 0 && out@.to_multiset().count(y) > 0);
                lemma_ranges_between_count(*self, preg_count as int, self.nregs_spec(), x);
                lemma_ranges_between_count(*self, preg_count as int, self.nregs_spec(), y);
                let g: int = x.reg as int;
                assert(self.rng_of(g).to_multiset().count(x) > 0);
                assert(self.rng_of(g).to_multiset().count(y) > 0);
                assert(self.rng_of(g).contains(x) && self.rng_of(g).contains(y));
                let i1 = choose|i1: int| 0 <= i1 < self.rng_of(g).len() && self.rng_of(g)[i1] == x;
                let i2 = choose|i2: int| 0 <= i2 < self.rng_of(g).len() && self.rng_of(g)[i2] == y;
                assert(ranges_wf(self.rng_of(g), g as u32));
                assert(i1 != i2);
                if i1 < i2 {
                    lemma_wf_separated(self.rng_of(g), g as u32, i1, i2);
                } else {
                    lemma_wf_separated(self.rng_of(g), g as u32, i2, i1);
                    assert(pp_lt(y.end, x.start));
                    assert(pp_le(x.start, y.start)) by {
                        if x.start != y.start {
                            assert(pp_lt(x.start, y.start));
                        }
                    }
                    assert(pp_le(y.start, y.end));
                    assert(false);
                }
            }
        }
        out
    }
}

} // verus!
