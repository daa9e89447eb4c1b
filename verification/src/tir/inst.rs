use vstd::prelude::*;

use crate::svec::BlockList;
use crate::svec::RegList;
use crate::svec::block_list;
use crate::svec::reg_list;
use crate::tir::func::Reg;
use vstd::string::StringExecFns;

verus! {

/// `s` with every occurrence of `from` replaced by `to`.
pub open spec fn subst(s: Seq<u32>, from: u32, to: u32) -> Seq<u32> {
    s.map_values(
        |x: u32|
            if x == from {
                to
            } else {
                x
            },
    )
}

/// The decimal digit character for `d`.
pub open spec fn digit_char(d: nat) -> char {
    if d == 0 {
        '0'
    } else if d == 1 {
        '1'
    } else if d == 2 {
        '2'
    } else if d == 3 {
        '3'
    } else if d == 4 {
        '4'
    } else if d == 5 {
        '5'
    } else if d == 6 {
        '6'
    } else if d == 7 {
        '7'
    } else if d == 8 {
        '8'
    } else {
        '9'
    }
}

/// The decimal rendering of `n`, most significant digit first.
pub open spec fn dec_digits(n: nat) -> Seq<char>
    decreases n,
{
    if n < 10 {
        seq![digit_char(n)]
    } else {
        dec_digits(n / 10).push(digit_char(n % 10))
    }
}

/// Relies on the Display implementation of u32 in std: it writes the
/// value in decimal, most significant digit first.
#[verifier::external_body]
pub(crate) fn fmt_dec(n: u32) -> (r: String)
    ensures
        r@ == dec_digits(n as nat),
{
    format!("{}", n)
}

/// The capability contract every target instruction satisfies: the core
/// reads registers, branch targets and terminator classification through
/// it and never inspects the instruction payload itself.
pub trait Inst: Sized + Copy {
    /// Whether the instruction is a branch.
    spec fn spec_is_branch(&self) -> bool;

    /// Whether the instruction is a return.
    spec fn spec_is_ret(&self) -> bool;

    /// The registers the instruction reads, in a stable order.
    spec fn spec_uses(&self) -> Seq<u32>;

    /// The registers the instruction writes, in a stable order.
    spec fn spec_defs(&self) -> Seq<u32>;

    /// The blocks a branch may jump to; empty for non-branches.
    spec fn spec_targets(&self) -> Seq<u16>;

    /// How many physical registers the target machine has.
    spec fn spec_preg_count() -> u32;

    /// The display name of the physical register `reg`.
    spec fn spec_preg_name(reg: u32) -> Seq<char>;

    /// The instruction value `replace` returns: the same instruction with
    /// every register occurrence of `from` substituted by `to` and every
    /// other payload field kept.
    spec fn spec_replace(&self, from: Reg, to: Reg) -> Self;

    fn is_branch(&self) -> (r: bool)
        ensures
            r == self.spec_is_branch(),
    ;

    fn is_ret(&self) -> (r: bool)
        ensures
            r == self.spec_is_ret(),
    ;

    fn is_term(&self) -> (r: bool)
        ensures
            r == (self.spec_is_branch() || self.spec_is_ret()),
    {
        self.is_branch() || self.is_ret()
    }

    fn get_uses(&self) -> (r: RegList)
        ensures
            reg_list(r) == self.spec_uses(),
    ;

    fn get_defs(&self) -> (r: RegList)
        ensures
            reg_list(r) == self.spec_defs(),
    ;

    fn get_branch_targets(&self) -> (r: BlockList)
        ensures
            block_list(r) == self.spec_targets(),
    ;

    /// A copy of the instruction with every register occurrence of `from`
    /// substituted by `to`, in uses and defs alike; everything else kept.
    fn replace(&self, from: Reg, to: Reg) -> (r: Self)
        ensures
            r == self.spec_replace(from, to),
            r.spec_uses() == subst(self.spec_uses(), from, to),
            r.spec_defs() == subst(self.spec_defs(), from, to),
            r.spec_targets() == self.spec_targets(),
            r.spec_is_branch() == self.spec_is_branch(),
            r.spec_is_ret() == self.spec_is_ret(),
    ;

    fn preg_name(reg: Reg) -> (r: String)
        requires
            reg < Self::spec_preg_count(),
        ensures
            r@ == Self::spec_preg_name(reg),
    ;

    fn preg_count() -> (r: u32)
        ensures
            r == Self::spec_preg_count(),
    ;
}

/// The display name of any register id of the target `I`: a physical
/// register keeps its target name, a virtual register is written `v`
/// followed by its index above the physical range.
pub fn reg_name<I: Inst>(reg: Reg) -> (r: String)
    ensures
        reg < I::spec_preg_count() ==> r@ == I::spec_preg_name(reg),
        reg >= I::spec_preg_count() ==> r@ == seq!['v'] + dec_digits((reg - I::spec_preg_count())
            as nat),
{
    let count = I::preg_count();
    if reg < count {
        I::preg_name(reg)
    } else {
        let mut s = String::from_str("v");
        let digits = fmt_dec(reg - count);
        s.append(digits.as_str());
        proof {
            reveal_strlit("v");
            assert(s@ =~= seq!['v'] + dec_digits((reg - I::spec_preg_count()) as nat));
        }
        s
    }
}

} // verus!
