pub mod backend;
pub mod inst;
pub mod regs;
