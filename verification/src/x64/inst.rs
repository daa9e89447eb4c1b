use vstd::prelude::*;

use crate::svec::BlockList;
use crate::svec::RegList;
use crate::svec::block_list;
use crate::svec::reg_list;
use crate::tir::block::Block;
use crate::tir::func::Reg;
use crate::tir::inst::Inst;
use crate::tir::inst::subst;
use crate::x64::regs::R10;
use crate::x64::regs::R11;
use crate::x64::regs::R12;
use crate::x64::regs::R13;
use crate::x64::regs::R14;
use crate::x64::regs::R15;
use crate::x64::regs::R8;
use crate::x64::regs::R9;
use crate::x64::regs::RAX;
use crate::x64::regs::RBP;
use crate::x64::regs::RBX;
use crate::x64::regs::RCX;
use crate::x64::regs::RDI;
use crate::x64::regs::RDX;
use crate::x64::regs::REGISTERS_COUNT;
use crate::x64::regs::RSI;
use crate::x64::regs::RSP;
use vstd::string::StringExecFns;

verus! {

/// A condition code of a conditional jump.
#[derive(Clone, Copy, PartialEq, Eq, Structural, Debug)]
pub enum Cond {
    Z,
    NZ,
    B,
    NB,
    BE,
    NBE,
    L,
    LE,
    NL,
    NLE,
    O,
    NO,
    P,
    NP,
    S,
    NS,
}

/// A memory operand: base register, optional index register, scale and
/// displacement.
#[derive(Clone, Copy, PartialEq, Eq, Structural, Debug)]
pub struct Mem {
    pub reg: Reg,
    pub index: Option<Reg>,
    pub scale: u8,
    pub disp: i32,
}

/// The registers a memory operand reads: its base, and its index if one
/// is present.
pub open spec fn mem_uses(m: Mem) -> Seq<u32> {
    match m.index {
        Some(idx) => seq![m.reg, idx],
        None => seq![m.reg],
    }
}

/// `m` with every occurrence of `from` among its registers replaced by
/// `to`.
pub open spec fn mem_subst(m: Mem, from: u32, to: u32) -> Mem {
    Mem {
        reg: if m.reg == from {
            to
        } else {
            m.reg
        },
        index: match m.index {
            Some(idx) => Some(
                if idx == from {
                    to
                } else {
                    idx
                },
            ),
            None => None,
        },
        scale: m.scale,
        disp: m.disp,
    }
}

impl Mem {
    /// The registers this operand reads.
    pub fn get_uses(&self) -> (r: RegList)
        ensures
            reg_list(r) == mem_uses(*self),
    {
        let mut l = RegList::new();
        l.push(self.reg);
        match self.index {
            Some(idx) => {
                l.push(idx);
                proof {
                    assert(reg_list(l) =~= mem_uses(*self));
                }
            },
            None => {
                proof {
                    assert(reg_list(l) =~= mem_uses(*self));
                }
            },
        }
        l
    }

    fn replace_regs(&self, from: Reg, to: Reg) -> (r: Mem)
        ensures
            r == mem_subst(*self, from, to),
    {
        Mem {
            reg: if self.reg == from {
                to
            } else {
                self.reg
            },
            index: match self.index {
                Some(idx) => Some(
                    if idx == from {
                        to
                    } else {
                        idx
                    },
                ),
                None => None,
            },
            scale: self.scale,
            disp: self.disp,
        }
    }
}

/// The x86-64 instruction selection this backend works with.
#[derive(Clone, Copy, PartialEq, Eq, Structural, Debug)]
pub enum X64Inst {
    Ret,
    Jmp { dst: Block },
    CondJmp { cond: Cond, taken: Block, not_taken: Block },
    Mov64rm { dst: Reg, src: Mem },
    Mov64mr { dst: Mem, src: Reg },
    Mov64rr { dst: Reg, src: Reg },
    Mov64ri64 { dst: Reg, src: i64 },
    Mov64mi64 { dst: Mem, src: i64 },
    CMP64rr { lhs: Reg, rhs: Reg },
}

impl Inst for X64Inst {
    open spec fn spec_is_branch(&self) -> bool {
        self is Jmp || self is CondJmp
    }

    open spec fn spec_is_ret(&self) -> bool {
        self is Ret
    }

    open spec fn spec_uses(&self) -> Seq<u32> {
        match *self {
            X64Inst::Ret => Seq::empty(),
            X64Inst::Jmp { .. } => Seq::empty(),
            X64Inst::CondJmp { .. } => Seq::empty(),
            X64Inst::Mov64rm { dst, src } => mem_uses(src),
            X64Inst::Mov64mr { dst, src } => mem_uses(dst).push(src),
            X64Inst::Mov64rr { dst, src } => seq![src],
            X64Inst::Mov64ri64 { .. } => Seq::empty(),
            X64Inst::Mov64mi64 { dst, src } => mem_uses(dst),
            X64Inst::CMP64rr { lhs, rhs } => seq![lhs, rhs],
        }
    }

    open spec fn spec_defs(&self) -> Seq<u32> {
        match *self {
            X64Inst::Ret => Seq::empty(),
            X64Inst::Jmp { .. } => Seq::empty(),
            X64Inst::CondJmp { .. } => Seq::empty(),
            X64Inst::Mov64rm { dst, src } => seq![dst],
            X64Inst::Mov64mr { .. } => Seq::empty(),
            X64Inst::Mov64rr { dst, src } => seq![dst],
            X64Inst::Mov64ri64 { dst, src } => seq![dst],
            X64Inst::Mov64mi64 { .. } => Seq::empty(),
            X64Inst::CMP64rr { .. } => Seq::empty(),
        }
    }

    open spec fn spec_targets(&self) -> Seq<u16> {
        match *self {
            X64Inst::Jmp { dst } => seq![dst.0],
            X64Inst::CondJmp { taken, not_taken, .. } => seq![taken.0, not_taken.0],
            _ => Seq::empty(),
        }
    }

    open spec fn spec_preg_count() -> u32 {
        REGISTERS_COUNT
    }

    open spec fn spec_replace(&self, from: Reg, to: Reg) -> Self {
        match *self {
            X64Inst::Ret => X64Inst::Ret,
            X64Inst::Jmp { dst } => X64Inst::Jmp { dst },
            X64Inst::CondJmp { cond, taken, not_taken } => (X64Inst::CondJmp {
                cond,
                taken,
                not_taken,
            }),
            X64Inst::Mov64rm { dst, src } => (X64Inst::Mov64rm {
                dst: if dst == from {
                    to
                } else {
                    dst
                },
                src: mem_subst(src, from, to),
            }),
            X64Inst::Mov64mr { dst, src } => (X64Inst::Mov64mr {
                dst: mem_subst(dst, from, to),
                src: if src == from {
                    to
                } else {
                    src
                },
            }),
            X64Inst::Mov64rr { dst, src } => (X64Inst::Mov64rr {
                dst: if dst == from {
                    to
                } else {
                    dst
                },
                src: if src == from {
                    to
                } else {
                    src
                },
            }),
            X64Inst::Mov64ri64 { dst, src } => (X64Inst::Mov64ri64 {
                dst: if dst == from {
                    to
                } else {
                    dst
                },
                src,
            }),
            X64Inst::Mov64mi64 { dst, src } => (X64Inst::Mov64mi64 {
                dst: mem_subst(dst, from, to),
                src,
            }),
            X64Inst::CMP64rr { lhs, rhs } => (X64Inst::CMP64rr {
                lhs: if lhs == from {
                    to
                } else {
                    lhs
                },
                rhs: if rhs == from {
                    to
                } else {
                    rhs
                },
            }),
        }
    }

    open spec fn spec_preg_name(reg: u32) -> Seq<char> {
        if reg == RAX {
            "rax"@
        } else if reg == RBX {
            "rbx"@
        } else if reg == RCX {
            "rcx"@
        } else if reg == RDX {
            "rdx"@
        } else if reg == RSI {
            "rsi"@
        } else if reg == RDI {
            "rdi"@
        } else if reg == RSP {
            "rsp"@
        } else if reg == RBP {
            "rbp"@
        } else if reg == R8 {
            "r8"@
        } else if reg == R9 {
            "r9"@
        } else if reg == R10 {
            "r10"@
        } else if reg == R11 {
            "r11"@
        } else if reg == R12 {
            "r12"@
        } else if reg == R13 {
            "r13"@
        } else if reg == R14 {
            "r14"@
        } else {
            "r15"@
        }
    }

    fn is_ret(&self) -> (r: bool) {
        match self {
            X64Inst::Ret => true,
            _ => false,
        }
    }

    fn is_branch(&self) -> (r: bool) {
        match self {
            X64Inst::Jmp { .. } => true,
            X64Inst::CondJmp { .. } => true,
            _ => false,
        }
    }

    #[verifier::spinoff_prover]
    fn get_uses(&self) -> (r: RegList) {
        match self {
            X64Inst::Ret => {
                let l = RegList::new();
                proof {
                    assert(reg_list(l) =~= self.spec_uses());
                }
                l
            },
            X64Inst::Jmp { .. } => {
                let l = RegList::new();
                proof {
                    assert(reg_list(l) =~= self.spec_uses());
                }
                l
            },
            X64Inst::CondJmp { .. } => {
                let l = RegList::new();
                proof {
                    assert(reg_list(l) =~= self.spec_uses());
                }
                l
            },
            X64Inst::Mov64rm { dst, src } => src.get_uses(),
            X64Inst::Mov64mr { dst, src } => {
                let mut l = dst.get_uses();
                l.push(*src);
                l
            },
            X64Inst::Mov64rr { dst, src } => {
                let mut l = RegList::new();
                l.push(*src);
                proof {
                    assert(reg_list(l) =~= self.spec_uses());
                }
                l
            },
            X64Inst::Mov64ri64 { .. } => {
                let l = RegList::new();
                proof {
                    assert(reg_list(l) =~= self.spec_uses());
                }
                l
            },
            X64Inst::Mov64mi64 { dst, src } => dst.get_uses(),
            X64Inst::CMP64rr { lhs, rhs } => {
                let mut l = RegList::new();
                l.push(*lhs);
                l.push(*rhs);
                proof {
                    assert(reg_list(l) =~= self.spec_uses());
                }
                l
            },
        }
    }

    #[verifier::spinoff_prover]
    fn get_defs(&self) -> (r: RegList) {
        match self {
            X64Inst::Mov64rm { dst, .. } | X64Inst::Mov64rr { dst, .. } | X64Inst::Mov64ri64 {
                dst,
                ..
            } => {
                let mut l = RegList::new();
                l.push(*dst);
                proof {
                    assert(reg_list(l) =~= self.spec_defs());
                }
                l
            },
            _ => {
                let l = RegList::new();
                proof {
                    assert(reg_list(l) =~= self.spec_defs());
                }
                l
            },
        }
    }

    fn get_branch_targets(&self) -> (r: BlockList) {
        match self {
            X64Inst::Jmp { dst } => {
                let mut l = BlockList::new();
                l.push(*dst);
                proof {
                    assert(block_list(l) =~= self.spec_targets());
                }
                l
            },
            X64Inst::CondJmp { taken, not_taken, .. } => {
                let mut l = BlockList::new();
                l.push(*taken);
                l.push(*not_taken);
                proof {
                    assert(block_list(l) =~= self.spec_targets());
                }
                l
            },
            _ => {
                let l = BlockList::new();
                proof {
                    assert(block_list(l) =~= self.spec_targets());
                }
                l
            },
        }
    }

    fn preg_name(reg: Reg) -> (r: String) {
        let s: &str = if reg == RAX {
            "rax"
        } else if reg == RBX {
            "rbx"
        } else if reg == RCX {
            "rcx"
        } else if reg == RDX {
            "rdx"
        } else if reg == RSI {
            "rsi"
        } else if reg == RDI {
            "rdi"
        } else if reg == RSP {
            "rsp"
        } else if reg == RBP {
            "rbp"
        } else if reg == R8 {
            "r8"
        } else if reg == R9 {
            "r9"
        } else if reg == R10 {
            "r10"
        } else if reg == R11 {
            "r11"
        } else if reg == R12 {
            "r12"
        } else if reg == R13 {
            "r13"
        } else if reg == R14 {
            "r14"
        } else {
            "r15"
        };
        String::from_str(s)
    }

    #[verifier::spinoff_prover]
    #[verifier::rlimit(100)]
    fn replace(&self, from: Reg, to: Reg) -> (r: Self) {
        let r = match *self {
            X64Inst::Ret => X64Inst::Ret,
            X64Inst::Jmp { dst } => X64Inst::Jmp { dst },
            X64Inst::CondJmp { cond, taken, not_taken } => X64Inst::CondJmp {
                cond,
                taken,
                not_taken,
            },
            X64Inst::Mov64rm { dst, src } => X64Inst::Mov64rm {
                dst: if dst == from {
                    to
                } else {
                    dst
                },
                src: src.replace_regs(from, to),
            },
            X64Inst::Mov64mr { dst, src } => X64Inst::Mov64mr {
                dst: dst.replace_regs(from, to),
                src: if src == from {
                    to
                } else {
                    src
                },
            },
            X64Inst::Mov64rr { dst, src } => X64Inst::Mov64rr {
                dst: if dst == from {
                    to
                } else {
                    dst
                },
                src: if src == from {
                    to
                } else {
                    src
                },
            },
            X64Inst::Mov64ri64 { dst, src } => X64Inst::Mov64ri64 {
                dst: if dst == from {
                    to
                } else {
                    dst
                },
                src,
            },
            X64Inst::Mov64mi64 { dst, src } => X64Inst::Mov64mi64 {
                dst: dst.replace_regs(from, to),
                src,
            },
            X64Inst::CMP64rr { lhs, rhs } => X64Inst::CMP64rr {
                lhs: if lhs == from {
                    to
                } else {
                    lhs
                },
                rhs: if rhs == from {
                    to
                } else {
                    rhs
                },
            },
        };
        proof {
            assert(r == self.spec_replace(from, to));
            assert(r.spec_uses() =~= subst(self.spec_uses(), from, to));
            assert(r.spec_defs() =~= subst(self.spec_defs(), from, to));
        }
        r
    }

    fn preg_count() -> (r: u32) {
        REGISTERS_COUNT
    }
}

} // verus!
