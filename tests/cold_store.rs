use clickplanet::cold_store::{
    member_of, members_to_remove, ownership_from_member, ownerships_from_members, parse_member,
    plan_cold_save, split_member,
};
use clickplanet::model::{Click, ClickRepositoryError};

fn click(country_id: &str, timestamp_ns: u64) -> Click {
    Click {
        tile_id: 1,
        country_id: country_id.to_string(),
        timestamp_ns,
        click_id: "c".to_string(),
    }
}

#[test]
fn member_is_country_colon_timestamp() {
    assert_eq!(member_of("fr", 1234567890123), "fr:1234567890123");
    assert_eq!(member_of("de", 0), "de:0");
    assert_eq!(member_of("us", u64::MAX), "us:18446744073709551615");
}

#[test]
fn member_round_trip() {
    let m = member_of("country1", 987654321);
    assert_eq!(parse_member(&m), Some(("country1".to_string(), 987654321)));
}

#[test]
fn malformed_members_do_not_parse() {
    assert_eq!(split_member("no-colon"), None);
    assert_eq!(split_member("a:b:c"), None);
    assert_eq!(split_member("fr:12"), Some(("fr".to_string(), "12".to_string())));
    assert_eq!(parse_member("fr:"), None);
    assert_eq!(parse_member("fr:x1"), None);
    assert_eq!(parse_member("fr:18446744073709551616"), None);
    assert_eq!(parse_member("fr:+7"), Some(("fr".to_string(), 7)));
}

#[test]
fn ownership_from_member_keeps_tile() {
    let o = ownership_from_member(42, "fr:99").unwrap();
    assert_eq!((o.tile_id, o.country_id.as_str(), o.timestamp_ns), (42, "fr", 99));
    assert!(ownership_from_member(42, "fr-99").is_none());
}

#[test]
fn plan_for_unowned_tile_writes() {
    let p = plan_cold_save(1, None, &click("country1", 10)).unwrap();
    assert!(p.previous.is_none());
    assert_eq!(p.new_member.as_deref(), Some("country1:10"));
}

#[test]
fn plan_for_newer_click_writes_and_returns_previous() {
    let p = plan_cold_save(1, Some("country1:10"), &click("country2", 20)).unwrap();
    let prev = p.previous.unwrap();
    assert_eq!((prev.tile_id, prev.country_id.as_str(), prev.timestamp_ns), (1, "country1", 10));
    assert_eq!(p.new_member.as_deref(), Some("country2:20"));
}

#[test]
fn plan_for_stale_or_equal_click_does_not_write() {
    let p = plan_cold_save(1, Some("country1:10"), &click("country2", 10)).unwrap();
    assert_eq!(p.previous.unwrap().country_id, "country1");
    assert!(p.new_member.is_none());
    let p = plan_cold_save(1, Some("country1:10"), &click("country2", 5)).unwrap();
    assert!(p.new_member.is_none());
}

#[test]
fn plan_for_invalid_member_is_invalid_data() {
    let r = plan_cold_save(1, Some("garbage"), &click("country2", 10));
    assert!(matches!(r, Err(ClickRepositoryError::InvalidDataError(_))));
}

#[test]
fn plan_for_unreadable_timestamp_overwrites() {
    let p = plan_cold_save(1, Some("country1:soon"), &click("country2", 10)).unwrap();
    assert!(p.previous.is_none());
    assert_eq!(p.new_member.as_deref(), Some("country2:10"));
}

#[test]
fn members_to_remove_keeps_the_others() {
    let old = vec!["a:1".to_string(), "b:2".to_string(), "a:1".to_string(), "c:3".to_string()];
    assert_eq!(members_to_remove(&old, "a:1"), vec!["b:2".to_string(), "c:3".to_string()]);
    assert!(members_to_remove(&vec![], "a:1").is_empty());
}

#[test]
fn decoding_members_skips_malformed_and_rejects_bad_scores() {
    let pairs = vec![
        ("country0:5".to_string(), "0".to_string()),
        ("broken".to_string(), "1".to_string()),
        ("country1:7".to_string(), "2".to_string()),
    ];
    let s = ownerships_from_members(&pairs).unwrap().ownerships;
    let got: Vec<(u32, String, u64)> =
        s.iter().map(|o| (o.tile_id, o.country_id.clone(), o.timestamp_ns)).collect();
    assert_eq!(got, vec![(0, "country0".to_string(), 5), (2, "country1".to_string(), 7)]);

    let bad = vec![("country0:5".to_string(), "4294967296".to_string())];
    assert!(matches!(ownerships_from_members(&bad), Err(ClickRepositoryError::InvalidDataError(_))));
    let bad = vec![("country0:5".to_string(), "tile".to_string())];
    assert!(matches!(ownerships_from_members(&bad), Err(ClickRepositoryError::InvalidDataError(_))));
}
