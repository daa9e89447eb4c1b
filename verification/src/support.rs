pub mod bitset;
pub mod slotmap;
