use clickplanet::hot_index::PapayaClickRepository;
use clickplanet::model::{Click, ClickRepositoryError};
use clickplanet::ownership_update::apply_click;

fn click(tile_id: i32, country_id: &str, timestamp_ns: u64) -> Click {
    Click {
        tile_id,
        country_id: country_id.to_string(),
        timestamp_ns,
        click_id: format!("id-{}", timestamp_ns),
    }
}

fn board_score(repo: &PapayaClickRepository, country: &str) -> Option<u32> {
    repo.leaderboard().unwrap().iter().find(|e| e.country_id == country).map(|e| e.score)
}

#[test]
fn first_claim_notifies_from_unowned() {
    let mut repo = PapayaClickRepository::new();
    let n = apply_click(&mut repo, &click(42, "fr", 1_000)).unwrap().unwrap();
    assert_eq!((n.tile_id, n.country_id.as_str(), n.previous_country_id.as_str()), (42, "fr", ""));
    let o = repo.get_tile(42).unwrap().unwrap();
    assert_eq!((o.country_id.as_str(), o.timestamp_ns), ("fr", 1_000));
    assert_eq!(repo.get_score("fr").unwrap(), 1);
}

#[test]
fn reclaim_moves_tile_and_notifies() {
    let mut repo = PapayaClickRepository::new();
    apply_click(&mut repo, &click(42, "fr", 1_000)).unwrap();
    let n = apply_click(&mut repo, &click(42, "de", 2_000)).unwrap().unwrap();
    assert_eq!((n.tile_id, n.country_id.as_str(), n.previous_country_id.as_str()), (42, "de", "fr"));
    let o = repo.get_tile(42).unwrap().unwrap();
    assert_eq!((o.country_id.as_str(), o.timestamp_ns), ("de", 2_000));
    assert_eq!(repo.get_score("fr").unwrap(), 0);
    assert_eq!(repo.get_score("de").unwrap(), 1);
    assert_eq!(board_score(&repo, "fr"), None);
}

#[test]
fn stale_click_changes_nothing() {
    let mut repo = PapayaClickRepository::new();
    apply_click(&mut repo, &click(42, "fr", 1_000)).unwrap();
    apply_click(&mut repo, &click(42, "de", 2_000)).unwrap();
    let n = apply_click(&mut repo, &click(42, "it", 1_500)).unwrap();
    assert!(n.is_none());
    let o = repo.get_tile(42).unwrap().unwrap();
    assert_eq!((o.country_id.as_str(), o.timestamp_ns), ("de", 2_000));
    assert_eq!(repo.get_score("it").unwrap(), 0);
    assert_eq!(repo.get_score("de").unwrap(), 1);
}

#[test]
fn redelivered_click_notifies_once() {
    let mut repo = PapayaClickRepository::new();
    let c = click(7, "fr", 500);
    let first = apply_click(&mut repo, &c).unwrap();
    let second = apply_click(&mut repo, &c).unwrap();
    assert!(first.is_some());
    assert!(second.is_none());
    let o = repo.get_tile(7).unwrap().unwrap();
    assert_eq!((o.country_id.as_str(), o.timestamp_ns), ("fr", 500));
    assert_eq!(repo.get_score("fr").unwrap(), 1);
}

#[test]
fn same_owner_newer_click_is_silent() {
    let mut repo = PapayaClickRepository::new();
    apply_click(&mut repo, &click(3, "fr", 100)).unwrap();
    let n = apply_click(&mut repo, &click(3, "fr", 200)).unwrap();
    assert!(n.is_none());
    assert_eq!(repo.get_tile(3).unwrap().unwrap().timestamp_ns, 200);
    assert_eq!(repo.get_score("fr").unwrap(), 1);
}

#[test]
fn negative_tile_is_invalid_data() {
    let mut repo = PapayaClickRepository::new();
    let r = apply_click(&mut repo, &click(-1, "fr", 100));
    assert!(matches!(r, Err(ClickRepositoryError::InvalidDataError(_))));
    assert!(repo.get_ownerships().unwrap().ownerships.is_empty());
}

#[test]
fn scores_match_owned_tiles_after_many_clicks() {
    let mut repo = PapayaClickRepository::new();
    let countries = ["a", "b", "c"];
    for step in 0..60u64 {
        let tile = (step * 7 % 11) as i32;
        let country = countries[(step % 3) as usize];
        apply_click(&mut repo, &click(tile, country, 1_000 + step)).unwrap();
    }
    let all = repo.get_ownerships().unwrap().ownerships;
    for country in countries {
        let owned = all.iter().filter(|o| o.country_id == country).count() as u32;
        assert_eq!(repo.get_score(country).unwrap(), owned);
        assert_eq!(board_score(&repo, country), if owned == 0 { None } else { Some(owned) });
    }
}
