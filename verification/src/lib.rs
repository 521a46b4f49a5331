//! Subscription matching and alert logic for an earthquake early-warning
//! push service.
pub mod geohash;
pub mod text;
pub mod civil_time;
pub mod monitor;
pub mod subscription;
pub mod record_cipher;
pub mod store_plan;
pub mod lookup;
pub mod store;
