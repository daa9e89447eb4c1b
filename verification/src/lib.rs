pub mod analysis;
pub mod support;
pub mod svec;
pub mod tir;
pub mod x64;
pub mod regalloc;
