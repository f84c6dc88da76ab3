use tileink::draws::DrawTable;

#[test]
fn draw_id_resolves_to_its_draw() {
    let mut table = DrawTable::new();
    assert_eq!(table.push_draw(), 0);
    assert_eq!(table.push_draw(), 1);
    assert_eq!(table.draw_count(), 2);
    let id = table.draw_id_at(1).unwrap();
    assert_eq!(id.index(), 1);
    assert_eq!(table.draw_index(id), Some(1));
    assert!(table.draw_id_at(2).is_none());
}

#[test]
fn draw_id_from_before_reset_is_rejected() {
    let mut table = DrawTable::new();
    table.push_draw();
    let stale = table.draw_id_at(0).unwrap();
    table.reset();
    assert_eq!(table.draw_count(), 0);
    assert_eq!(table.draw_index(stale), None);
    table.push_draw();
    assert_eq!(table.draw_index(stale), None);
    let fresh = table.draw_id_at(0).unwrap();
    assert_eq!(fresh.index(), stale.index());
    assert_ne!(fresh, stale);
    assert_eq!(table.draw_index(fresh), Some(0));
}
