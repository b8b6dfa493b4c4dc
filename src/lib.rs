//! An embeddable key/value cache whose entries are persisted in an embedded
//! SQLite store, bounded both in entry count and in total cost, with
//! least-recently-used eviction.
pub mod error;
pub mod database_manager;
pub mod model;
pub mod cache;
pub mod laws;
