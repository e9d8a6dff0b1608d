//! Persistent storage for consensus bookkeeping: a deterministic byte codec,
//! and typed fields, tables and multimap tables over one redb database.
pub mod codec;
pub mod engine;
pub mod store;
pub mod laws;
