//! Hashed dictionaries over VM values: trackers that map simple and compound keys to
//! values in order of first insertion and log each access with a cursor, a manager that
//! resolves dictionary pointers to trackers, lookup of compound keys by their Poseidon
//! hash, prefix enumeration, copying between trackers, and seeding with precompile
//! addresses.

pub mod felt;
pub mod hints;
pub mod key;
pub mod laws;
pub mod manager;
pub mod search;
pub mod tracker;
