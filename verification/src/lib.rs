//! Read-side access to a node's canonical chain: a tracker that turns new
//! chain segments into commit and reorg notifications, and the caches, fee
//! statistics and transaction pool that follow those notifications.

pub mod facade;
pub mod fee_history;
pub mod gas_price;
pub mod pool;
pub mod pool_laws;
pub mod pool_model;
pub mod seq_lemmas;
pub mod state_cache;
pub mod subscription;
pub mod tracker;
pub mod types;
