use esprit2::floor::Tile;
use esprit2::resource::{Error as ResourceError, Resource};
use esprit2::vault::{Error, SymbolMeaning, Vault};

#[test]
fn a_drawing_becomes_tiles_row_by_row() {
    let vault = Vault::parse("x.x\n.>\n", &[]).unwrap();
    assert_eq!(vault.width, 3);
    assert_eq!(vault.height(), 2);
    assert_eq!(
        vault.tiles,
        vec![Some(Tile::Wall), Some(Tile::Floor), Some(Tile::Wall), Some(Tile::Floor), Some(Tile::Exit), None]
    );
    assert!(vault.characters.is_empty());
    assert!(vault.edges.is_empty());
}

#[test]
fn leading_empty_lines_are_skipped() {
    let vault = Vault::parse("\n\n..\n", &[]).unwrap();
    assert_eq!(vault.width, 2);
    assert_eq!(vault.tiles, vec![Some(Tile::Floor), Some(Tile::Floor)]);
}

#[test]
fn edges_and_void_leave_no_tile() {
    let vault = Vault::parse(" E.", &[]).unwrap();
    assert_eq!(vault.tiles, vec![None, None, Some(Tile::Floor)]);
    assert_eq!(vault.edges, vec![(1, 0)]);
}

#[test]
fn symbols_come_before_the_built_in_ones() {
    let symbols = [
        ('g', SymbolMeaning::Character { sheet: String::from("goblin"), tile: Tile::Floor }),
        ('.', SymbolMeaning::Tile(Tile::Wall)),
    ];
    let vault = Vault::parse("g.\n.g", &symbols).unwrap();
    assert_eq!(vault.tiles, vec![Some(Tile::Floor), Some(Tile::Wall), Some(Tile::Wall), Some(Tile::Floor)]);
    assert_eq!(vault.characters, vec![(0, 0, String::from("goblin")), (1, 1, String::from("goblin"))]);
}

#[test]
fn unknown_symbols_are_refused() {
    assert_eq!(Vault::parse("..\n.?", &[]).unwrap_err(), Error::UnexpectedSymbol('?'));
}

#[test]
fn carriage_returns_end_lines() {
    let vault = Vault::parse("..\r\n.\r\n", &[]).unwrap();
    assert_eq!(vault.width, 2);
    assert_eq!(vault.tiles, vec![Some(Tile::Floor), Some(Tile::Floor), Some(Tile::Floor), None]);
}

#[test]
fn resources_are_found_by_identifier() {
    let mut resources: Resource<u32> = Resource::new();
    assert_eq!(resources.insert(String::from("esprit:a"), 1), None);
    assert_eq!(resources.insert(String::from("esprit:b"), 2), None);
    assert_eq!(resources.insert(String::from("esprit:a"), 3), Some(1));
    assert_eq!(*resources.get("esprit:a").unwrap(), 3);
    assert_eq!(resources.get_key_value("esprit:b").unwrap(), ("esprit:b", &2));
    assert!(matches!(resources.get("esprit:c"), Err(ResourceError::NotFound(id)) if id == "esprit:c"));
    let empty: Resource<u32> = Resource::default();
    assert!(empty.get("esprit:a").is_err());
}
