use clickplanet::hot_index::PapayaClickRepository;
use clickplanet::leaderboard::LeaderboardOnClicks;
use clickplanet::model::{Click, Ownership, OwnershipState};
use std::time::{SystemTime, UNIX_EPOCH};

fn click(tile_id: i32, country_id: &str, timestamp_ns: u64) -> Click {
    Click {
        tile_id,
        country_id: country_id.to_string(),
        timestamp_ns,
        click_id: String::new(),
    }
}

fn entry_score(board: &[clickplanet::model::LeaderboardEntry], country: &str) -> Option<u32> {
    board.iter().find(|e| e.country_id == country).map(|e| e.score)
}

#[test]
fn in_memory_click_persistence_test_concurrent_updates() {
    let mut repo = PapayaClickRepository::new();
    let tile_id = 1;
    let base_time = SystemTime::now().duration_since(UNIX_EPOCH).unwrap().as_nanos() as u64;
    for i in 0..100 {
        let c = Click {
            tile_id: i,
            click_id: "".to_string(),
            country_id: format!("COUNTRY{}", i % 5),
            timestamp_ns: base_time + i as u64,
        };
        repo.save_click(tile_id, &c).unwrap();
    }
    let ownership = repo.get_tile(tile_id).unwrap().unwrap();
    assert_eq!(ownership.country_id, "COUNTRY4");
}

#[test]
fn test_leaderboard_accuracy() {
    let mut repository = PapayaClickRepository::new();
    for i in 0..10 {
        let c = Click {
            tile_id: i,
            country_id: format!("COUNTRY{}", i % 2),
            timestamp_ns: (10 + i * 10) as u64,
            click_id: format!("click-{}", i),
        };
        repository.save_click(c.tile_id as u32, &c).unwrap();
    }
    let computation = LeaderboardOnClicks(repository);
    let score0 = computation.get_score("COUNTRY0").unwrap();
    let score1 = computation.get_score("COUNTRY1").unwrap();
    let score2 = computation.get_score("COUNTRY2").unwrap();
    let board = computation.leaderboard().unwrap();
    assert_eq!(board.len(), 2);
    assert_eq!(entry_score(&board, "COUNTRY0"), Some(5));
    assert_eq!(entry_score(&board, "COUNTRY1"), Some(5));
    assert_eq!(score0 + score1 + score2, 10);
}

#[test]
fn test_update_and_scores() {
    let mut repo = PapayaClickRepository::new();
    repo.update_country_index(1, "country1", None);
    assert_eq!(repo.get_score("country1").unwrap(), 1);
    assert_eq!(repo.get_score("country2").unwrap(), 0);

    repo.update_country_index(1, "country2", Some("country1"));
    assert_eq!(repo.get_score("country1").unwrap(), 0);
    assert_eq!(repo.get_score("country2").unwrap(), 1);

    repo.update_country_index(2, "country2", None);
    repo.update_country_index(3, "country2", None);
    assert_eq!(repo.get_score("country2").unwrap(), 3);

    let board = repo.leaderboard().unwrap();
    assert_eq!(entry_score(&board, "country1"), None);
    assert_eq!(entry_score(&board, "country2"), Some(3));
}

#[test]
fn test_concurrent_updates() {
    let mut repo = PapayaClickRepository::new();
    for i in 0..10 {
        repo.update_country_index(i, "country1", None);
    }
    assert_eq!(repo.get_score("country1").unwrap(), 10);
    for i in 0..10 {
        repo.update_country_index(i, "country2", Some("country1"));
    }
    let board = repo.leaderboard().unwrap();
    assert_eq!(repo.get_score("country1").unwrap(), 0);
    assert_eq!(repo.get_score("country2").unwrap(), 10);
    assert_eq!(entry_score(&board, "country1"), None);
    assert_eq!(entry_score(&board, "country2"), Some(10));
}

#[test]
fn test_empty_country_removal() {
    let mut repo = PapayaClickRepository::new();
    repo.update_country_index(1, "country1", None);
    assert_eq!(repo.get_score("country1").unwrap(), 1);
    repo.update_country_index(1, "country2", Some("country1"));
    assert_eq!(repo.get_score("country1").unwrap(), 0);
    let board = repo.leaderboard().unwrap();
    assert!(entry_score(&board, "country1").is_none());
    assert_eq!(entry_score(&board, "country2"), Some(1));
}

#[test]
fn save_click_returns_previous_and_keeps_newer_value() {
    let mut repo = PapayaClickRepository::new();
    assert!(repo.save_click(7, &click(7, "fr", 100)).unwrap().is_none());
    let prev = repo.save_click(7, &click(7, "de", 200)).unwrap().unwrap();
    assert_eq!(prev.country_id, "fr");
    assert_eq!(prev.timestamp_ns, 100);
    let prev = repo.save_click(7, &click(7, "it", 150)).unwrap().unwrap();
    assert_eq!(prev.country_id, "de");
    let now = repo.get_tile(7).unwrap().unwrap();
    assert_eq!((now.tile_id, now.country_id.as_str(), now.timestamp_ns), (7, "de", 200));
}

#[test]
fn save_click_equal_timestamp_keeps_first_writer() {
    let mut repo = PapayaClickRepository::new();
    repo.save_click(3, &click(3, "fr", 500)).unwrap();
    let prev = repo.save_click(3, &click(3, "de", 500)).unwrap().unwrap();
    assert_eq!(prev.country_id, "fr");
    assert_eq!(repo.get_tile(3).unwrap().unwrap().country_id, "fr");
}

#[test]
fn highest_timestamp_wins_whatever_the_order() {
    let mut repo = PapayaClickRepository::new();
    for (country, ts) in [("b", 20u64), ("d", 40), ("a", 10), ("c", 30)] {
        repo.save_click(9, &click(9, country, ts)).unwrap();
    }
    let o = repo.get_tile(9).unwrap().unwrap();
    assert_eq!((o.country_id.as_str(), o.timestamp_ns), ("d", 40));
}

#[test]
fn missing_tile_reads_as_none() {
    let repo = PapayaClickRepository::new();
    assert!(repo.get_tile(12345).unwrap().is_none());
    assert!(repo.get_ownerships().unwrap().ownerships.is_empty());
}

#[test]
fn range_read_is_inclusive_and_filters_full_read() {
    let mut repo = PapayaClickRepository::new();
    for t in 1..=10u32 {
        let country = if t % 2 == 1 { "a" } else { "b" };
        repo.save_click(t, &click(t as i32, country, 1000 + t as u64)).unwrap();
    }
    let part = repo.get_ownerships_by_batch(2, 6).unwrap().ownerships;
    let mut tiles: Vec<u32> = part.iter().map(|o| o.tile_id).collect();
    tiles.sort();
    assert_eq!(tiles, vec![2, 3, 4, 5, 6]);
    for o in &part {
        assert_eq!(o.country_id, if o.tile_id % 2 == 1 { "a" } else { "b" });
    }
    let all = repo.get_ownerships().unwrap().ownerships;
    assert_eq!(all.len(), 10);
    let mut filtered: Vec<(u32, String, u64)> = all
        .iter()
        .filter(|o| 2 <= o.tile_id && o.tile_id <= 6)
        .map(|o| (o.tile_id, o.country_id.clone(), o.timestamp_ns))
        .collect();
    let mut got: Vec<(u32, String, u64)> =
        part.iter().map(|o| (o.tile_id, o.country_id.clone(), o.timestamp_ns)).collect();
    filtered.sort();
    got.sort();
    assert_eq!(got, filtered);
}

#[test]
fn warm_load_reads_back_the_snapshot() {
    let snapshot = OwnershipState {
        ownerships: vec![
            Ownership { tile_id: 5, country_id: "fr".to_string(), timestamp_ns: 50 },
            Ownership { tile_id: 1, country_id: "de".to_string(), timestamp_ns: 10 },
            Ownership { tile_id: 9, country_id: "fr".to_string(), timestamp_ns: 90 },
        ],
    };
    let repo = PapayaClickRepository::populate_with(&snapshot);
    let mut got: Vec<(u32, String, u64)> = repo
        .get_ownerships()
        .unwrap()
        .ownerships
        .iter()
        .map(|o| (o.tile_id, o.country_id.clone(), o.timestamp_ns))
        .collect();
    got.sort();
    assert_eq!(
        got,
        vec![(1, "de".to_string(), 10), (5, "fr".to_string(), 50), (9, "fr".to_string(), 90)]
    );
    assert_eq!(repo.get_score("fr").unwrap(), 2);
    assert_eq!(repo.get_score("de").unwrap(), 1);
}

#[test]
fn leaderboard_counts_tiles_per_country() {
    let mut repo = PapayaClickRepository::new();
    for t in 1..=3u32 {
        repo.update_country_index(t, "a", None);
    }
    for t in 4..=8u32 {
        repo.update_country_index(t, "b", None);
    }
    let board = repo.leaderboard().unwrap();
    assert_eq!(board.len(), 2);
    assert_eq!(entry_score(&board, "a"), Some(3));
    assert_eq!(entry_score(&board, "b"), Some(5));
}
