//! Verified algorithms and small services: bitmaps, sparse rings, two LRU caches,
//! a TTL/LRU local cache, graph and search routines, and a user login model.
pub mod bitmap;
pub mod sparse_ring;
pub mod lru_model;
pub mod lru_bitmap;
pub mod lru;
pub mod local_cache;
pub mod problems;
pub mod auth;
pub mod basics;
pub mod bus_routes;
pub mod graph;
