use clickplanet::backend::{FakeBackend, Ownerships, TileClicker, Update};

#[test]
fn ownerships_bindings() {
    let mut o = Ownerships::new();
    assert!(o.get_bindings().is_empty());
    o.set_binding(1, "fr".to_string());
    o.set_binding(1, "de".to_string());
    o.set_binding(2, "it".to_string());
    assert_eq!(o.get_bindings().len(), 2);
    assert_eq!(o.get_bindings().get(&1).map(|s| s.as_str()), Some("de"));
}

#[test]
fn update_new_keeps_fields() {
    let u = Update::new(5, Some("fr".to_string()), "de".to_string());
    assert_eq!(u.tile, 5);
    assert_eq!(u.previous_country.as_deref(), Some("fr"));
    assert_eq!(u.new_country, "de");
}

#[test]
fn fake_backend_click_reports_previous_owner() {
    let mut b = FakeBackend::with_default_owner(10, "fr");
    assert_eq!(b.tile_bindings().len(), 10);
    let u = b.click_tile(3, "de".to_string());
    assert_eq!((u.tile, u.previous_country.as_deref(), u.new_country.as_str()), (3, Some("fr"), "de"));
    let u = b.click_tile(11, "it".to_string());
    assert_eq!(u.previous_country, None);
    TileClicker::click_tile(&mut b, 3, "es".to_string());
    assert_eq!(b.tile_bindings().get(&3).map(|s| s.as_str()), Some("es"));
}
