use vstd::prelude::*;

verus! {

/// What the hot index keeps for one tile: its owner and the time of the
/// click that made it so.
#[derive(Debug, Clone)]
pub struct TileData {
    pub country_id: String,
    pub timestamp_ns: u64,
}

/// The current owner of a tile.
#[derive(Debug, Clone)]
pub struct Ownership {
    pub tile_id: u32,
    pub country_id: String,
    pub timestamp_ns: u64,
}

/// A snapshot of ownerships, as served to clients.
#[derive(Debug, Clone)]
pub struct OwnershipState {
    pub ownerships: Vec<Ownership>,
}

/// A click as it travels through the click log: the tile, the claiming
/// country, the server timestamp and the click id.
#[derive(Debug, Clone)]
pub struct Click {
    pub tile_id: i32,
    pub country_id: String,
    pub timestamp_ns: u64,
    pub click_id: String,
}

/// What a client submits to claim a tile.
#[derive(Debug, Clone)]
pub struct ClickRequest {
    pub tile_id: i32,
    pub country_id: String,
}

/// What the click service answers: the stamp it gave the click.
#[derive(Debug, Clone)]
pub struct ClickResponse {
    pub timestamp_ns: u64,
    pub click_id: String,
}

/// A request for the ownerships of an inclusive range of tiles.
#[derive(Debug, Clone)]
pub struct BatchRequest {
    pub start_tile_id: i32,
    pub end_tile_id: i32,
}

/// Announces that a tile changed owner. `previous_country_id` is empty when
/// the tile had no owner.
#[derive(Debug, Clone)]
pub struct UpdateNotification {
    pub tile_id: i32,
    pub country_id: String,
    pub previous_country_id: String,
}

/// One line of the leaderboard.
#[derive(Debug, Clone)]
pub struct LeaderboardEntry {
    pub country_id: String,
    pub score: u32,
}

/// The leaderboard, best score first.
#[derive(Debug, Clone)]
pub struct LeaderboardResponse {
    pub entries: Vec<LeaderboardEntry>,
}

/// Failures of an ownership repository.
#[derive(Debug)]
pub enum ClickRepositoryError {
    StorageError(String),
    InvalidDataError(String),
}

/// Failures of a leaderboard repository.
#[derive(Debug)]
pub enum LeaderboardError {
    StorageError(String),
}

/// Settings of a durable click-log consumer.
#[derive(Debug, Clone)]
pub struct ConsumerConfig {
    pub consumer_name: String,
    pub ack_wait_secs: u64,
    pub max_deliver: i64,
    pub concurrent_processors: usize,
}

/// Where traces are exported, and under which service name.
#[derive(Debug, Clone)]
pub struct TelemetryConfig {
    pub otlp_endpoint: String,
    pub service_name: String,
}

/// The view of an ownership record: tile, country, timestamp.
pub open spec fn ownership_view(o: Ownership) -> (u32, Seq<char>, u64) {
    (o.tile_id, o.country_id@, o.timestamp_ns)
}

} // verus!
