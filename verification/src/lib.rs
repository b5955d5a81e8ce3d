//! Verified core of a dispatch-station occupancy logger.
//!
//! The library tracks, over time, which player (or the sentinel `"BOT"`,
//! meaning no one) controls each dispatch station of an online
//! train-simulation world, across several game servers.  The world itself is
//! polled over HTTP by a thin unverified shell; this crate holds everything
//! with algorithmic content: the append-only occupancy log store, the
//! reconciliation step that writes a record only when a station's controller
//! changed, the retention sweep, and the query surface that serves the
//! history back ordered by station and time.

pub mod engine;
pub mod order;
pub mod query;
pub mod record;
pub mod store;
pub mod world;
