pub mod container;
pub mod heaps;
pub mod probalistic;
