use vstd::prelude::*;

use crate::tir::backend::Backend;
use crate::tir::func::Reg;
use crate::x64::inst::X64Inst;

verus! {

/// The x86-64 target: its instruction set and register naming.
pub struct X64Backend {}

impl Backend for X64Backend {
    type Inst = X64Inst;

    open spec fn spec_preg_name(reg: u32) -> Seq<char> {
        <X64Inst as crate::tir::inst::Inst>::spec_preg_name(reg)
    }

    fn preg_name(reg: Reg) -> (r: String) {
        <X64Inst as crate::tir::inst::Inst>::preg_name(reg)
    }
}

} // verus!
