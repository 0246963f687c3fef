//! Click ingestion and ownership fan-out for a shared tile-claiming game.
//!
//! The crate holds the verified core of the server: the hot ownership index
//! with its last-writer-wins rule and per-country reverse index, the
//! ownership-update decision that turns clicks into notifications, the
//! leaderboard, the text formats used by the click log and the cold store,
//! and the binary wire form of the messages the server reads and writes.
//! `backend` holds the client-side ownership state of the game.
pub mod model;
pub mod decimal;
pub mod tile_store;
pub mod hot_index;
pub mod ownership_update;
pub mod cold_store;
pub mod click_log;
pub mod leaderboard;
pub mod backend;
pub mod wire;
pub mod request_wire;
