//! The engine that keeps pending holds: two-phase reservations of money, written to a log of blocks,
//! found through a compact index, replayed from a snapshot, and expired by the day.

pub mod address;
pub mod ledger;
pub mod remainder;
pub mod block;
pub mod hash;
pub mod prng;
pub mod delay;
pub mod stats;
pub mod store;
pub mod volume;
pub mod memory_store;
pub mod model;
pub mod latency;
pub mod timing;
pub mod cache;
pub mod caching;
pub mod slots;
pub mod cascade;
pub mod index;
pub mod filling;
pub mod tiers;
pub mod owed;
pub mod journal;
pub mod traffic;
pub mod record_log;
pub mod bookkeeping;
pub mod budget;
pub mod engine;
pub mod lookups;
pub mod carrying;
pub mod decisions;
pub mod calendar;
pub mod snapshot;
pub mod policy;
pub mod snapshots;
pub mod recovery;
pub mod config;
pub mod ports;
pub mod overlay;
pub mod lane;
pub mod orderer;
pub mod worker;
pub mod answering;
pub mod footprint;
pub mod raft;
