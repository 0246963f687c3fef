use clickplanet::model::Click;
use clickplanet::request_wire::{decode_batch_request, decode_click, decode_click_request};
use clickplanet::wire::encode_click;

#[test]
fn click_request_decodes() {
    let r = decode_click_request(&[8, 42, 18, 2, b'f', b'r']).unwrap();
    assert_eq!((r.tile_id, r.country_id.as_str()), (42, "fr"));
    let r = decode_click_request(&[]).unwrap();
    assert_eq!((r.tile_id, r.country_id.as_str()), (0, ""));
    let r = decode_click_request(&[18, 2, b'd', b'e', 8, 7]).unwrap();
    assert_eq!((r.tile_id, r.country_id.as_str()), (7, "de"));
}

#[test]
fn malformed_click_request_is_refused() {
    assert!(decode_click_request(&[8]).is_none());
    assert!(decode_click_request(&[18, 5, b'a']).is_none());
    assert!(decode_click_request(&[10, 1, 1]).is_none());
    assert!(decode_click_request(&[18, 2, 0xC3, 0x28]).is_none());
}

#[test]
fn negative_tile_ids_decode_as_negative() {
    let bytes = [8, 0xFF, 0xFF, 0xFF, 0xFF, 0xFF, 0xFF, 0xFF, 0xFF, 0xFF, 0x01];
    assert_eq!(decode_click_request(&bytes).unwrap().tile_id, -1);
}

#[test]
fn batch_request_decodes() {
    let r = decode_batch_request(&[8, 2, 16, 6]).unwrap();
    assert_eq!((r.start_tile_id, r.end_tile_id), (2, 6));
    let r = decode_batch_request(&[16, 6, 40, 1, 8, 2]).unwrap();
    assert_eq!((r.start_tile_id, r.end_tile_id), (2, 6));
}

#[test]
fn click_round_trip_on_the_log() {
    let c = Click {
        tile_id: 123456,
        country_id: "fr".to_string(),
        timestamp_ns: 1_700_000_000_123_456_789,
        click_id: "6f1c2e0a-0000-4000-8000-000000000000".to_string(),
    };
    let d = decode_click(&encode_click(&c)).unwrap();
    assert_eq!(d.tile_id, c.tile_id);
    assert_eq!(d.country_id, c.country_id);
    assert_eq!(d.timestamp_ns, c.timestamp_ns);
    assert_eq!(d.click_id, c.click_id);
}
