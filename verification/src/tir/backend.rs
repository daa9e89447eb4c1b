use vstd::prelude::*;

use crate::tir::inst::Inst;
use crate::tir::inst::dec_digits;
use crate::tir::reg::Reg;
use crate::tir::reg::RegType;
use vstd::string::StringExecFns;

verus! {

/// A target back-end: an instruction set together with its physical
/// register naming.
pub trait Backend {
    type Inst: Inst;

    /// The display name of the physical register `reg`.
    spec fn spec_preg_name(reg: u32) -> Seq<char>;

    fn preg_name(reg: crate::tir::func::Reg) -> (r: String)
        requires
            reg < Self::Inst::spec_preg_count(),
        ensures
            r@ == Self::spec_preg_name(reg),
    ;
}

/// The display name of a packed register under the back-end `B`: `v`
/// followed by the id for a virtual register, the target name for a
/// physical register, `s` followed by the slot for a spill slot.
pub fn reg_name<B: Backend>(reg: Reg) -> (r: String)
    requires
        reg.type_spec() is Physical ==> reg.id_spec() < <B::Inst as Inst>::spec_preg_count(),
    ensures
        reg.type_spec() is Virtual ==> r@ == seq!['v'] + dec_digits(reg.id_spec() as nat),
        reg.type_spec() is Physical ==> r@ == B::spec_preg_name(reg.id_spec()),
        reg.type_spec() is Spill ==> r@ == seq!['s'] + dec_digits(reg.id_spec() as nat),
    {
    match reg.get_type() {
        RegType::Virtual => {
            let mut s = String::from_str("v");
            let digits = crate::tir::inst::fmt_dec(reg.get_id());
            s.append(digits.as_str());
            proof {
                reveal_strlit("v");
                assert(s@ =~= seq!['v'] + dec_digits(reg.id_spec() as nat));
            }
            s
        },
        RegType::Physical => B::preg_name(reg.get_id()),
        RegType::Spill => {
            let mut s = String::from_str("s");
            let digits = crate::tir::inst::fmt_dec(reg.get_id());
            s.append(digits.as_str());
            proof {
                reveal_strlit("s");
                assert(s@ =~= seq!['s'] + dec_digits(reg.id_spec() as nat));
            }
            s
        },
    }
}

} // verus!
