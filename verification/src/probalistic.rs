pub mod bloom_filter;
pub mod mask;
