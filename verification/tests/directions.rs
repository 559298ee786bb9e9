use esprit2::{CardDir, OrdDir};

#[test]
fn card_offsets_round_trip() {
    for d in CardDir::all() {
        let (x, y) = d.as_offset();
        assert_eq!(CardDir::from_offset(x, y), Some(d));
    }
}

#[test]
fn ord_offsets_round_trip() {
    for d in OrdDir::all() {
        let (x, y) = d.as_offset();
        assert_eq!(OrdDir::from_offset(x, y), Some(d));
    }
}

#[test]
fn card_directions_clockwise() {
    assert_eq!(CardDir::all(), [CardDir::Up, CardDir::Right, CardDir::Down, CardDir::Left]);
    assert_eq!(CardDir::Up.as_offset(), (0, -1));
    assert_eq!(CardDir::Left.as_offset(), (-1, 0));
}

#[test]
fn ord_offsets_are_unit_steps() {
    assert_eq!(OrdDir::UpRight.as_offset(), (1, -1));
    assert_eq!(OrdDir::DownLeft.as_offset(), (-1, 1));
    assert_eq!(OrdDir::all().len(), 8);
}

#[test]
fn other_offsets_have_no_direction() {
    assert_eq!(CardDir::from_offset(0, 0), None);
    assert_eq!(CardDir::from_offset(1, 1), None);
    assert_eq!(OrdDir::from_offset(0, 0), None);
    assert_eq!(OrdDir::from_offset(2, 0), None);
    assert_eq!(OrdDir::from_offset(1, 1), Some(OrdDir::DownRight));
}
