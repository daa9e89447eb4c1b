pub mod dom_tree;
pub mod liveness;

pub use dom_tree::DomTree;
pub use liveness::LiveRange;
pub use liveness::LivenessAnalysis;
pub use liveness::ProgramPoint;
