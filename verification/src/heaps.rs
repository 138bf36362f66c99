pub mod binary_heap;
pub mod binomial_heap;
pub mod binomial_tree;
pub mod forest;
pub mod heap;
