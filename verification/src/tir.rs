pub mod backend;
pub mod block;
pub mod cfg;
pub mod dfg;
pub mod errors;
pub mod func;
pub mod inst;
pub mod reg;

pub use block::Block;
pub use block::BlockData;
pub use cfg::CFG;
pub use dfg::DFG;
pub use errors::TirError;
pub use func::Func;
pub use func::Reg;
pub use func::cfg_matches;
pub use func::targets_of;
pub use func::terminator_of;
pub use inst::Inst;
pub use inst::reg_name;
pub use backend::Backend;
