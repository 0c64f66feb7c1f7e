//! A small artifact store: a verified metadata engine over an ordered
//! key-value store, a reversible key codec, and the ingest/retrieval
//! pipelines built on top of them.

pub mod config;
pub mod db;
pub mod keys;
pub mod kv;
pub mod laws;
pub mod nums;
pub mod order;
pub mod store;
