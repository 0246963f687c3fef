use clickplanet::leaderboard::{accepted_format, contains_str, sort_by_score, AcceptedFormat};
use clickplanet::model::LeaderboardEntry;

fn entry(c: &str, score: u32) -> LeaderboardEntry {
    LeaderboardEntry { country_id: c.to_string(), score }
}

#[test]
fn entries_sorted_by_score_descending() {
    let sorted = sort_by_score(vec![entry("a", 3), entry("b", 5)]);
    let got: Vec<(String, u32)> = sorted.iter().map(|e| (e.country_id.clone(), e.score)).collect();
    assert_eq!(got, vec![("b".to_string(), 5), ("a".to_string(), 3)]);
}

#[test]
fn sort_keeps_every_entry_and_ties_in_order() {
    let sorted = sort_by_score(vec![entry("x", 1), entry("y", 4), entry("z", 1), entry("w", 9)]);
    let got: Vec<&str> = sorted.iter().map(|e| e.country_id.as_str()).collect();
    assert_eq!(got, vec!["w", "y", "x", "z"]);
    assert!(sort_by_score(vec![]).is_empty());
}

#[test]
fn accept_header_selects_format() {
    assert!(matches!(accepted_format(Some("application/protobuf")), AcceptedFormat::Protobuf));
    assert!(matches!(
        accepted_format(Some("text/html, application/protobuf;q=0.9")),
        AcceptedFormat::Protobuf
    ));
    assert!(matches!(accepted_format(Some("application/json")), AcceptedFormat::Json));
    assert!(matches!(accepted_format(None), AcceptedFormat::Json));
}

#[test]
fn substring_search() {
    assert!(contains_str("abcabd", "abd"));
    assert!(!contains_str("abcab", "abd"));
    assert!(contains_str("abc", ""));
    assert!(!contains_str("", "a"));
}
