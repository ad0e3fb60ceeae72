//! A small replicated key-value store: a consistent-hash ring, an append-only
//! log engine with a live-key index, and the coordinator's cluster state.
pub mod bytes_order;
pub mod keyed;
pub mod text;
pub mod ring;
pub mod record;
pub mod store;
pub mod coord;
pub mod replication;
