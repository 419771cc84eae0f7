//! A verified battery-telemetry store.
//!
//! The store ingests battery/system snapshots, retains them at three time
//! resolutions (a short-lived raw tier, a medium realtime tier and a
//! long one-minute tier), tracks discrete battery-state intervals with
//! rolling statistics, and answers keyset-paginated historical queries.
pub mod sample;
pub mod stats;
pub mod aggregate;
pub mod retention;
pub mod history;
pub mod store;
pub mod query;
pub mod manager;
pub mod host;
