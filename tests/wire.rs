use clickplanet::model::{Click, LeaderboardEntry, LeaderboardResponse, Ownership, OwnershipState, UpdateNotification};
use clickplanet::wire::{
    decode_ownership, decode_ownership_state, encode_click, encode_leaderboard, encode_ownership,
    encode_ownership_state, encode_update_notification,
};

fn own(tile_id: u32, country_id: &str, timestamp_ns: u64) -> Ownership {
    Ownership { tile_id, country_id: country_id.to_string(), timestamp_ns }
}

fn view(s: &OwnershipState) -> Vec<(u32, String, u64)> {
    s.ownerships.iter().map(|o| (o.tile_id, o.country_id.clone(), o.timestamp_ns)).collect()
}

#[test]
fn ownership_bytes_follow_the_schema() {
    assert_eq!(encode_ownership(&own(1, "fr", 2)), vec![8, 1, 18, 2, b'f', b'r', 24, 2]);
    assert_eq!(encode_ownership(&own(300, "", 0)), vec![8, 0xAC, 0x02]);
    assert!(encode_ownership(&own(0, "", 0)).is_empty());
}

#[test]
fn snapshot_bytes_follow_the_schema() {
    let s = OwnershipState { ownerships: vec![own(1, "fr", 2), own(0, "", 0)] };
    assert_eq!(
        encode_ownership_state(&s),
        vec![10, 8, 8, 1, 18, 2, b'f', b'r', 24, 2, 10, 0]
    );
}

#[test]
fn snapshot_round_trip() {
    let s = OwnershipState {
        ownerships: vec![
            own(42, "fr", 1_700_000_000_000_000_000),
            own(7, "de", 5),
            own(u32::MAX, "côte", u64::MAX),
            own(0, "", 0),
        ],
    };
    let bytes = encode_ownership_state(&s);
    let back = decode_ownership_state(&bytes).unwrap();
    assert_eq!(view(&back), view(&s));
    let empty = OwnershipState { ownerships: vec![] };
    assert!(decode_ownership_state(&encode_ownership_state(&empty)).unwrap().ownerships.is_empty());
}

#[test]
fn decoder_accepts_other_orders_and_unknown_fields() {
    // timestamp first, then an unknown varint field 9, then country, then tile
    let bytes = vec![24, 5, 72, 1, 18, 2, b'd', b'e', 8, 7];
    let o = decode_ownership(&bytes, 0, bytes.len()).unwrap();
    assert_eq!((o.tile_id, o.country_id.as_str(), o.timestamp_ns), (7, "de", 5));
}

#[test]
fn decoder_rejects_truncated_or_invalid_input() {
    assert!(decode_ownership_state(&[10, 5, 8]).is_none());
    assert!(decode_ownership_state(&[10]).is_none());
    let bad_utf8 = vec![10, 4, 18, 2, 0xFF, 0xFE];
    assert!(decode_ownership_state(&bad_utf8).is_none());
    assert!(decode_ownership(&[9, 1], 0, 2).is_none());
}

#[test]
fn notification_click_and_leaderboard_bytes() {
    let n = UpdateNotification {
        tile_id: 42,
        country_id: "de".to_string(),
        previous_country_id: "fr".to_string(),
    };
    assert_eq!(encode_update_notification(&n), vec![8, 42, 18, 2, b'd', b'e', 26, 2, b'f', b'r']);
    let first = UpdateNotification { tile_id: 42, country_id: "fr".to_string(), previous_country_id: String::new() };
    assert_eq!(encode_update_notification(&first), vec![8, 42, 18, 2, b'f', b'r']);
    let negative = UpdateNotification { tile_id: -1, country_id: String::new(), previous_country_id: String::new() };
    assert_eq!(
        encode_update_notification(&negative),
        vec![8, 0xFF, 0xFF, 0xFF, 0xFF, 0xFF, 0xFF, 0xFF, 0xFF, 0xFF, 0x01]
    );
    let c = Click { tile_id: 1, country_id: "fr".to_string(), timestamp_ns: 300, click_id: "x".to_string() };
    assert_eq!(encode_click(&c), vec![8, 1, 18, 2, b'f', b'r', 24, 0xAC, 0x02, 34, 1, b'x']);
    let board = LeaderboardResponse {
        entries: vec![
            LeaderboardEntry { country_id: "b".to_string(), score: 5 },
            LeaderboardEntry { country_id: "a".to_string(), score: 3 },
        ],
    };
    assert_eq!(encode_leaderboard(&board), vec![10, 5, 10, 1, b'b', 16, 5, 10, 5, 10, 1, b'a', 16, 3]);
}
