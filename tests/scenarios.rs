use clickplanet::hot_index::PapayaClickRepository;
use clickplanet::leaderboard::sort_by_score;
use clickplanet::model::Click;
use clickplanet::ownership_update::apply_click;
use clickplanet::wire::{decode_ownership_state, encode_ownership_state};

fn click(tile_id: i32, country_id: &str, timestamp_ns: u64) -> Click {
    Click {
        tile_id,
        country_id: country_id.to_string(),
        timestamp_ns,
        click_id: String::new(),
    }
}

#[test]
fn range_snapshot_through_the_wire() {
    let mut repo = PapayaClickRepository::new();
    for t in 1..=10i32 {
        let country = if t % 2 == 1 { "a" } else { "b" };
        apply_click(&mut repo, &click(t, country, 100 + t as u64)).unwrap();
    }
    let bytes = encode_ownership_state(&repo.get_ownerships_by_batch(2, 6).unwrap());
    let decoded = decode_ownership_state(&bytes).unwrap();
    let mut got: Vec<(u32, String)> =
        decoded.ownerships.iter().map(|o| (o.tile_id, o.country_id.clone())).collect();
    got.sort();
    assert_eq!(
        got,
        vec![
            (2, "b".to_string()),
            (3, "a".to_string()),
            (4, "b".to_string()),
            (5, "a".to_string()),
            (6, "b".to_string())
        ]
    );
}

#[test]
fn leaderboard_ordering_from_the_index() {
    let mut repo = PapayaClickRepository::new();
    for t in 1..=3i32 {
        apply_click(&mut repo, &click(t, "a", 10)).unwrap();
    }
    for t in 4..=8i32 {
        apply_click(&mut repo, &click(t, "b", 10)).unwrap();
    }
    let sorted = sort_by_score(repo.leaderboard().unwrap());
    let got: Vec<(String, u32)> = sorted.iter().map(|e| (e.country_id.clone(), e.score)).collect();
    assert_eq!(got, vec![("b".to_string(), 5), ("a".to_string(), 3)]);
}

#[test]
fn full_snapshot_round_trip_keeps_every_record() {
    let mut repo = PapayaClickRepository::new();
    for t in 0..50i32 {
        apply_click(&mut repo, &click(t * 37, ["fr", "de", "it"][(t % 3) as usize], 1_000 + t as u64)).unwrap();
    }
    let all = repo.get_ownerships().unwrap();
    let back = decode_ownership_state(&encode_ownership_state(&all)).unwrap();
    let mut a: Vec<(u32, String, u64)> =
        all.ownerships.iter().map(|o| (o.tile_id, o.country_id.clone(), o.timestamp_ns)).collect();
    let mut b: Vec<(u32, String, u64)> =
        back.ownerships.iter().map(|o| (o.tile_id, o.country_id.clone(), o.timestamp_ns)).collect();
    a.sort();
    b.sort();
    assert_eq!(a.len(), 50);
    assert_eq!(a, b);
}
