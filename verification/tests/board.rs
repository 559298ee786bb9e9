use esprit2::character::{Alliance, Piece, Sheet, Stats};
use esprit2::floor::{ChunkId, Floor, Tile};
use esprit2::nouns::{Nouns, Pronouns};

fn sheet(id: &str, heart: u16) -> Sheet {
    Sheet {
        id: String::from(id),
        nouns: Nouns { name: String::from(id), proper_name: false, pronouns: Pronouns::Object },
        level: 1,
        experience: 0,
        stats: Stats { heart, soul: 3, power: 2, defense: 1, magic: 0, resistance: 0 },
        abilities: Vec::new(),
        on_consider: String::new(),
    }
}

#[test]
fn chunks_hold_sixteen_tiles_a_side() {
    assert_eq!(ChunkId::from_absolute(0, 0), ChunkId(0, 0));
    assert_eq!(ChunkId::from_absolute(15, 16), ChunkId(0, 1));
    assert_eq!(ChunkId::from_absolute(-1, -16), ChunkId(-1, -1));
    assert_eq!(ChunkId::from_absolute(-17, 31), ChunkId(-2, 1));
}

#[test]
fn chunk_indices_map_back_to_positions() {
    assert_eq!(ChunkId(0, 0).to_absolute(0), (0, 0));
    assert_eq!(ChunkId(0, 0).to_absolute(17), (1, 1));
    assert_eq!(ChunkId(-1, 2).to_absolute(255), (-1, 47));
}

#[test]
fn a_new_floor_is_void() {
    let floor = Floor::new();
    assert_eq!(floor.get(0, 0), None);
    assert_eq!(floor.get(-100, 1000), None);
    assert!(floor.iter().is_empty());
}

#[test]
fn floor_reads_back_what_is_written() {
    let mut floor = Floor::default();
    *floor.get_mut(3, -4) = Some(Tile::Wall);
    *floor.get_mut(40, 2) = Some(Tile::Exit);
    assert_eq!(floor.get(3, -4), Some(Tile::Wall));
    assert_eq!(floor.get(40, 2), Some(Tile::Exit));
    assert_eq!(floor.get(3, -3), None);
    let mut tiles = floor.iter();
    tiles.sort_by_key(|t| (t.0, t.1));
    assert_eq!(tiles, vec![(3, -4, Tile::Wall), (40, 2, Tile::Exit)]);
}

#[test]
fn floor_lists_each_position_once() {
    let mut floor = Floor::new();
    for _ in 0..3 {
        *floor.get_mut(5, 5) = Some(Tile::Floor);
        *floor.get_mut(-20, 7) = Some(Tile::Wall);
    }
    *floor.get_mut(5, 5) = Some(Tile::Exit);
    let mut tiles = floor.iter();
    tiles.sort_by_key(|t| (t.0, t.1));
    assert_eq!(tiles, vec![(-20, 7, Tile::Wall), (5, 5, Tile::Exit)]);
}

#[test]
fn writing_void_clears_a_tile() {
    let mut floor = Floor::new();
    *floor.get_mut(1, 1) = Some(Tile::Floor);
    *floor.get_mut(1, 1) = None;
    assert_eq!(floor.get(1, 1), None);
    assert!(floor.iter().is_empty());
}

#[test]
fn pieces_start_full_and_ready() {
    let piece = Piece::new(sheet("goblin", 10));
    assert_eq!(piece.hp, 10);
    assert_eq!(piece.sp, 3);
    assert_eq!((piece.x, piece.y), (0, 0));
    assert_eq!(piece.action_delay, 0);
    assert_eq!(piece.alliance, Alliance::Enemy);
    assert!(!piece.player_controlled);
}

#[test]
fn stat_outcomes_subtract_debuffs_without_underflow() {
    let piece = Piece::new(sheet("goblin", 10));
    let debuffs = [
        Stats { heart: 4, soul: 0, power: 1, defense: 5, magic: 0, resistance: 0 },
        Stats { heart: 1, soul: 0, power: 0, defense: 0, magic: 2, resistance: 0 },
    ];
    let outcomes = piece.stat_outcomes(&debuffs);
    assert_eq!(outcomes.debuffs, Stats { heart: 5, soul: 0, power: 1, defense: 5, magic: 2, resistance: 0 });
    assert_eq!(outcomes.buffs, Stats::default());
    assert_eq!(outcomes.stats, Stats { heart: 5, soul: 3, power: 1, defense: 0, magic: 0, resistance: 0 });
    assert_eq!(piece.stats(&[]), piece.sheet.stats);
}

#[test]
fn stats_arithmetic_is_fieldwise() {
    let a = Stats { heart: 1, soul: 2, power: 3, defense: 4, magic: 5, resistance: 6 };
    let b = Stats { heart: 6, soul: 5, power: 4, defense: 3, magic: 2, resistance: 1 };
    assert_eq!(a + b, Stats { heart: 7, soul: 7, power: 7, defense: 7, magic: 7, resistance: 7 });
    assert_eq!((a + b) - a, b);
    assert_eq!(a * 2, Stats { heart: 2, soul: 4, power: 6, defense: 8, magic: 10, resistance: 12 });
    assert_eq!(a * b, Stats { heart: 6, soul: 10, power: 12, defense: 12, magic: 10, resistance: 6 });
    assert_eq!(b / 2, Stats { heart: 3, soul: 2, power: 2, defense: 1, magic: 1, resistance: 0 });
}

#[test]
fn a_tile_is_found_again_through_its_chunk() {
    for &(x, y) in &[(0, 0), (-17, 31), (100, -1), (i32::MIN, i32::MAX)] {
        let chunk = ChunkId::from_absolute(x, y);
        let index = (x.rem_euclid(16) + y.rem_euclid(16) * 16) as usize;
        assert_eq!(chunk.to_absolute(index), (x, y));
    }
}

#[test]
fn stats_from_named_fields() {
    let s = Stats::from_fields(&[("heart", 10), ("power", 2), ("heart", 12)]).unwrap();
    assert_eq!(s, Stats { heart: 12, soul: 0, power: 2, defense: 0, magic: 0, resistance: 0 });
    assert_eq!(Stats::from_fields(&[]).unwrap(), Stats::default());
    assert_eq!(Stats::from_fields(&[("soul", 1), ("luck", 3), ("speed", 1)]).unwrap_err(), "luck");
}
