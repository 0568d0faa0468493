pub mod cache_key;
pub mod lru_store;
pub mod graph;
pub mod cache;
