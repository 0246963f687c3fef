use clickplanet::click_log::{click_subject, requested_range, requested_tile, stamp_click, tile_from_subject};
use clickplanet::decimal::parse_u64;
use clickplanet::model::{BatchRequest, ClickRequest, ConsumerConfig};

#[test]
fn subject_names_the_tile() {
    assert_eq!(click_subject(42), "clicks.tile.42");
    assert_eq!(click_subject(0), "clicks.tile.0");
    assert_eq!(click_subject(-7), "clicks.tile.-7");
    assert_eq!(click_subject(i32::MIN), "clicks.tile.-2147483648");
}

#[test]
fn subject_reads_back_to_tile() {
    assert_eq!(tile_from_subject("clicks.tile.42"), Some(42));
    assert_eq!(tile_from_subject("clicks.tile.4294967295"), Some(u32::MAX));
    assert_eq!(tile_from_subject("clicks.tile.4294967296"), None);
    assert_eq!(tile_from_subject("clicks.tile."), None);
    assert_eq!(tile_from_subject("clicks.tile.-1"), None);
    assert_eq!(tile_from_subject("clicks.tiles.1"), None);
    assert_eq!(tile_from_subject("other.42"), None);
}

#[test]
fn stamped_click_carries_request_and_stamp() {
    let req = ClickRequest { tile_id: 42, country_id: "fr".to_string() };
    let (click, response) = stamp_click(&req, 123, &"abc".to_string());
    assert_eq!(click.tile_id, 42);
    assert_eq!(click.country_id, "fr");
    assert_eq!(click.timestamp_ns, 123);
    assert_eq!(click.click_id, "abc");
    assert_eq!(response.timestamp_ns, 123);
    assert_eq!(response.click_id, "abc");
}

#[test]
fn consumer_defaults() {
    let c = ConsumerConfig::default();
    assert_eq!(c.consumer_name, "tile-state-processor");
    assert_eq!(c.ack_wait_secs, 30);
    assert_eq!(c.max_deliver, 3);
    assert_eq!(c.concurrent_processors, 4);
}

#[test]
fn parse_u64_follows_std() {
    for s in ["0", "7", "+7", "0042", "18446744073709551615", "18446744073709551616", "", "+", "-1", "1a", " 1"] {
        assert_eq!(parse_u64(s), s.parse::<u64>().ok(), "{}", s);
    }
}

#[test]
fn negative_ids_are_bad_requests() {
    assert_eq!(requested_tile(&ClickRequest { tile_id: 42, country_id: "fr".to_string() }), Some(42));
    assert_eq!(requested_tile(&ClickRequest { tile_id: -1, country_id: "fr".to_string() }), None);
    assert_eq!(requested_range(&BatchRequest { start_tile_id: 2, end_tile_id: 6 }), Some((2, 6)));
    assert_eq!(requested_range(&BatchRequest { start_tile_id: -2, end_tile_id: 6 }), None);
    assert_eq!(requested_range(&BatchRequest { start_tile_id: 2, end_tile_id: -6 }), None);
}
