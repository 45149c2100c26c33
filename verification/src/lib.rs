//! In-memory token cache, and the packaging of the Substreams that feed it.
//!
//! `cache` serves token queries of every chain from memory. Each chain has a `store`: its tokens
//! in the order of their database ids, found again through indexes by address, quality and last
//! trade. `load` and `loader` fill the cache from database rows, `refresh_task` keeps it fresh.
//! What a store holds and answers is said in `model`; `query_laws`, `store_laws`, `cache_laws` and
//! `load_laws` state what holds of all queries, stores, caches and loads.
//!
//! `manifest` and `spkg` prepare the manifest of a Substreams package and decide the steps of
//! building it.

mod address_index;
mod bitmap;
pub mod cache;
pub mod cache_laws;
pub mod chain;
pub mod error;
pub mod load;
pub mod load_laws;
pub mod loader;
pub mod manifest;
pub mod model;
pub mod positions;
mod quality_index;
pub mod query;
pub mod query_laws;
pub mod refresh_task;
pub mod spkg;
pub mod store;
pub mod store_laws;
pub mod timestamp;
pub mod token;
