use esprit2::character::{Alliance, Piece, Sheet, Stats};
use esprit2::floor::{Floor, Tile};
use esprit2::generation::seed_from;
use esprit2::nouns::{Nouns, Pronouns};
use esprit2::resource::{Error, Resource};
use esprit2::vault::{SymbolMeaning, Vault, VaultSet};
use esprit2::world::{Action, Bump, Location, Manager, PartyReferenceBase};
use esprit2::{OrdDir, SQRT2_TURN, TURN};

fn sheet(id: &str, experience: u32) -> Sheet {
    Sheet {
        id: String::from(id),
        nouns: Nouns { name: String::from(id), proper_name: true, pronouns: Pronouns::Female },
        level: 1,
        experience,
        stats: Stats { heart: 10, soul: 5, power: 1, defense: 1, magic: 1, resistance: 1 },
        abilities: Vec::new(),
        on_consider: String::new(),
    }
}

fn sheets() -> Resource<Sheet> {
    let mut sheets = Resource::new();
    sheets.insert(String::from("esprit:luvui"), sheet("esprit:luvui", 70));
    sheets.insert(String::from("esprit:aris"), sheet("esprit:aris", 0));
    sheets.insert(String::from("esprit:goblin"), sheet("esprit:goblin", 0));
    sheets
}

fn party() -> Vec<PartyReferenceBase> {
    vec![
        PartyReferenceBase { sheet: String::from("esprit:luvui"), accent_color: (0xDA, 0x2D, 0x5C, 0xFF) },
        PartyReferenceBase { sheet: String::from("esprit:aris"), accent_color: (0x0C, 0x94, 0xFF, 0xFF) },
    ]
}

fn game() -> Manager {
    Manager::new(&party(), &sheets()).unwrap()
}

fn floor_with(tiles: &[(i32, i32, Tile)]) -> Floor {
    let mut floor = Floor::new();
    for &(x, y, t) in tiles {
        *floor.get_mut(x, y) = Some(t);
    }
    floor
}

#[test]
fn a_new_game_queues_the_party_last_member_first() {
    let world = game();
    assert_eq!(world.characters.len(), 2);
    assert_eq!(world.characters[0].sheet.id, "esprit:aris");
    assert_eq!(world.characters[1].sheet.id, "esprit:luvui");
    assert!(world.characters[1].player_controlled);
    assert!(!world.characters[0].player_controlled);
    assert!(world.characters.iter().all(|p| p.alliance == Alliance::Friendly));
    assert_eq!(world.next_character().sheet.id, "esprit:aris");
}

#[test]
fn a_missing_party_sheet_is_named() {
    let blueprint = vec![PartyReferenceBase { sheet: String::from("esprit:nobody"), accent_color: (0, 0, 0, 0) }];
    assert!(matches!(Manager::new(&blueprint, &sheets()), Err(Error::NotFound(id)) if id == "esprit:nobody"));
}

#[test]
fn characters_are_found_by_position() {
    let mut world = game();
    world.characters[1].x = 3;
    assert_eq!(world.get_character_at(3, 0), Some(1));
    assert_eq!(world.get_character_at(0, 0), Some(0));
    assert_eq!(world.get_character_at(9, 9), None);
}

#[test]
fn pieces_step_onto_floor_only() {
    let mut world = game();
    world.current_floor = floor_with(&[(1, 0, Tile::Floor), (1, 1, Tile::Exit), (0, 1, Tile::Wall)]);
    assert_eq!(world.move_piece(0, OrdDir::Right), Some(TURN));
    assert_eq!((world.characters[0].x, world.characters[0].y), (1, 0));
    assert_eq!(world.move_piece(1, OrdDir::DownRight), Some(SQRT2_TURN));
    assert_eq!((world.characters[1].x, world.characters[1].y), (1, 1));
    assert_eq!(world.move_piece(0, OrdDir::Up), None);
    assert_eq!((world.characters[0].x, world.characters[0].y), (1, 0));
}

#[test]
fn waiting_requeues_behind_those_who_wait_less() {
    let mut world = game();
    world.perform_action(&Action::Wait(30), None);
    assert_eq!(world.characters[0].sheet.id, "esprit:luvui");
    assert_eq!(world.characters[1].sheet.id, "esprit:aris");
    assert_eq!(world.characters[1].action_delay, 30);
}

#[test]
fn moving_next_to_the_target_steps_onto_it() {
    let mut world = game();
    world.current_floor = floor_with(&[(0, 0, Tile::Floor), (1, 0, Tile::Floor)]);
    world.perform_action(&Action::Move(1, 0), None);
    let aris = world.characters.iter().find(|p| p.sheet.id == "esprit:aris").unwrap();
    assert_eq!((aris.x, aris.y), (1, 0));
    assert_eq!(aris.action_delay, TURN);
}

#[test]
fn moving_towards_a_wall_next_door_stays_put() {
    let mut world = game();
    world.current_floor = floor_with(&[(0, 0, Tile::Floor), (1, 0, Tile::Wall)]);
    assert_eq!(world.move_towards(1, 0), None);
    assert_eq!((world.characters[0].x, world.characters[0].y), (0, 0));
}

#[test]
fn moving_towards_a_far_target_walks_around_walls() {
    let mut world = game();
    world.characters[1].x = -5;
    world.current_floor = floor_with(&[
        (0, 0, Tile::Floor),
        (1, 0, Tile::Wall),
        (1, 1, Tile::Wall),
        (1, -1, Tile::Floor),
        (2, -1, Tile::Floor),
        (2, 0, Tile::Floor),
    ]);
    assert_eq!(world.move_towards(2, 0), Some(SQRT2_TURN));
    assert_eq!((world.characters[0].x, world.characters[0].y), (1, -1));
    assert_eq!(world.move_towards(2, 0), Some(SQRT2_TURN));
    assert_eq!((world.characters[0].x, world.characters[0].y), (2, 0));
}

#[test]
fn moving_towards_an_unreachable_target_stays_put() {
    let mut world = game();
    world.characters[1].x = -5;
    world.current_floor = floor_with(&[(0, 0, Tile::Floor), (3, 0, Tile::Floor)]);
    assert_eq!(world.move_towards(3, 0), None);
    assert_eq!((world.characters[0].x, world.characters[0].y), (0, 0));
}

#[test]
fn the_dead_leave_the_queue() {
    let mut world = game();
    world.characters[1].hp = 0;
    world.perform_action(&Action::Wait(5), None);
    assert_eq!(world.characters.len(), 1);
    assert_eq!(world.characters[0].sheet.id, "esprit:aris");
}

#[test]
fn scripted_actions_take_the_time_their_script_gives() {
    let mut world = game();
    world.perform_action(&Action::Attack(String::from("bite")), Some(7));
    assert_eq!(world.characters[1].sheet.id, "esprit:aris");
    assert_eq!(world.characters[1].action_delay, 7);
    world.perform_action(&Action::Cast(String::from("spark")), None);
    assert_eq!(world.characters[1].action_delay, TURN);
}

#[test]
fn vaults_are_stamped_unless_they_collide() {
    let mut world = game();
    let symbols = [('g', SymbolMeaning::Character { sheet: String::from("esprit:goblin"), tile: Tile::Floor })];
    let vault = Vault::parse("g.\n.x", &symbols).unwrap();
    assert!(world.try_apply_vault(5, 5, &vault, &sheets()).unwrap());
    assert_eq!(world.current_floor.get(5, 5), Some(Tile::Floor));
    assert_eq!(world.current_floor.get(6, 6), Some(Tile::Wall));
    assert_eq!(world.characters.len(), 3);
    assert_eq!(world.characters[0].sheet.id, "esprit:goblin");
    assert_eq!((world.characters[0].x, world.characters[0].y), (5, 5));
    assert_eq!(world.characters[0].alliance, Alliance::Enemy);
    assert!(!world.try_apply_vault(6, 6, &vault, &sheets()).unwrap());
    assert_eq!(world.characters.len(), 3);
}

#[test]
fn vault_characters_need_their_sheets() {
    let mut world = game();
    let symbols = [('g', SymbolMeaning::Character { sheet: String::from("esprit:ghost"), tile: Tile::Floor })];
    let vault = Vault::parse("g", &symbols).unwrap();
    assert!(matches!(world.try_apply_vault(0, 0, &vault, &sheets()), Err(Error::NotFound(id)) if id == "esprit:ghost"));
    assert_eq!(world.current_floor.get(0, 0), Some(Tile::Floor));
}

#[test]
fn a_new_floor_keeps_the_party_and_awards_experience() {
    let mut world = game();
    world.characters.push(Piece::new(sheet("esprit:goblin", 0)));
    world.current_floor = floor_with(&[(0, 0, Tile::Floor)]);
    world.characters[0].x = 4;
    let levels = world.new_floor();
    assert_eq!(world.location.floor, 1);
    assert_eq!(world.current_floor.get(0, 0), None);
    assert_eq!(world.characters.len(), 2);
    assert!(world.characters.iter().all(|p| (p.x, p.y) == (0, 0)));
    let luvui = world.characters.iter().position(|p| p.sheet.id == "esprit:luvui").unwrap();
    assert_eq!(world.characters[luvui].sheet.level, 2);
    assert_eq!(world.characters[luvui].sheet.experience, 10);
    assert_eq!(levels, vec![(luvui, 2)]);
}

#[test]
fn generation_places_vaults_at_edges() {
    let mut world = game();
    let mut vaults = Resource::new();
    vaults.insert(String::from("esprit:room"), Vault::parse("E..\n...", &[]).unwrap());
    let set = VaultSet { vaults: vec![String::from("esprit:room")], density: 3, hall_ratio: 1 };
    let generated = world.generate_floor("default seed", &set, &vaults, &sheets()).unwrap();
    // The room has one edge, which the first placement uses up, so no open edge is left.
    assert_eq!(generated.vaults_placed, 1);
    assert!(generated.open_edges.is_empty());
    assert_eq!(world.current_floor.get(4, 4), None);
    assert_eq!(world.current_floor.get(5, 4), Some(Tile::Floor));
    assert_eq!(world.current_floor.get(6, 5), Some(Tile::Floor));
    assert_eq!(world.characters.len(), 2);
}

#[test]
fn generation_keeps_terrain() {
    let mut world = game();
    world.current_floor = floor_with(&[(5, 4, Tile::Wall)]);
    let mut vaults = Resource::new();
    vaults.insert(String::from("esprit:room"), Vault::parse("E..\n...", &[]).unwrap());
    let set = VaultSet { vaults: vec![String::from("esprit:room")], density: 3, hall_ratio: 1 };
    world.generate_floor("default seed", &set, &vaults, &sheets()).unwrap();
    assert_eq!(world.current_floor.get(5, 4), Some(Tile::Wall));
    assert_eq!(world.current_floor.get(6, 5), None);
}

#[test]
fn generation_without_density_changes_nothing() {
    let mut world = game();
    let set = VaultSet { vaults: vec![String::from("esprit:none")], density: 0, hall_ratio: 1 };
    let generated = world.generate_floor("x", &set, &Resource::new(), &sheets()).unwrap();
    assert_eq!(generated.vaults_placed, 0);
    assert_eq!(generated.open_edges, vec![(4, 4)]);
    assert!(world.current_floor.iter().is_empty());
}

#[test]
fn generation_names_missing_vaults() {
    let mut world = game();
    let set = VaultSet { vaults: vec![String::from("esprit:none")], density: 1, hall_ratio: 1 };
    assert!(matches!(
        world.generate_floor("x", &set, &Resource::new(), &sheets()),
        Err(Error::NotFound(id)) if id == "esprit:none"
    ));
}

#[test]
fn seeds_are_padded_with_zeros() {
    let seed = seed_from("abc");
    assert_eq!(&seed[..4], &[b'a', b'b', b'c', 0]);
    assert_eq!(seed_from(&"z".repeat(40)), [b'z'; 32]);
}

#[test]
fn locations_compare_by_value() {
    let a = Location { level: String::from("esprit:dungeon"), floor: 2 };
    assert_eq!(a.clone(), a);
}

#[test]
fn every_level_gained_is_reported() {
    let mut sheets = sheets();
    sheets.insert(String::from("esprit:luvui"), sheet("esprit:luvui", 190));
    let mut world = Manager::new(&party(), &sheets).unwrap();
    let levels = world.new_floor();
    let luvui = world.characters.iter().position(|p| p.sheet.id == "esprit:luvui").unwrap();
    assert_eq!(levels, vec![(luvui, 2), (luvui, 3)]);
    assert_eq!(world.characters[luvui].sheet.experience, 30);
}

#[test]
fn a_new_game_keeps_the_party_and_its_colors() {
    let world = game();
    assert_eq!(world.party.len(), 2);
    assert_eq!(world.party[0].sheet, "esprit:luvui");
    assert_eq!(world.party[0].accent_color, (0xDA, 0x2D, 0x5C, 0xFF));
    assert_eq!(world.party[1].sheet, "esprit:aris");
    assert_eq!(world.party[1].accent_color, (0x0C, 0x94, 0xFF, 0xFF));
}

#[test]
fn a_generation_round_places_the_vault_at_the_drawn_edge() {
    let mut world = game();
    let room = Vault::parse("E.E\n...", &[]).unwrap();
    let mut edges = vec![(20, 20), (4, 4)];
    let order = room.edges.clone();
    assert_eq!(world.generation_round(&mut edges, &room, &order, &sheets()), Ok(true));
    // The first edge of the room lands on (4, 4); its other edge stays open, moved along.
    assert_eq!(world.current_floor.get(5, 4), Some(Tile::Floor));
    assert_eq!(world.current_floor.get(5, 5), Some(Tile::Floor));
    assert_eq!(edges, vec![(20, 20), (6, 4)]);
}

#[test]
fn generation_places_as_many_vaults_as_the_density_asks_while_edges_last() {
    let mut world = game();
    let mut vaults = Resource::new();
    vaults.insert(String::from("esprit:hall"), Vault::parse("E.E", &[]).unwrap());
    let set = VaultSet { vaults: vec![String::from("esprit:hall")], density: 4, hall_ratio: 1 };
    let generated = world.generate_floor("default seed", &set, &vaults, &sheets()).unwrap();
    assert!(generated.vaults_placed == 4 || generated.open_edges.is_empty());
    assert!(generated.vaults_placed >= 1);
}

#[test]
fn bumps_tell_a_wall_from_the_void() {
    let mut world = game();
    world.current_floor = floor_with(&[(0, 0, Tile::Floor), (1, 0, Tile::Wall), (0, 1, Tile::Floor)]);
    assert_eq!(world.bump(1, 0), Some(Bump::Wall));
    assert_eq!(world.bump(-1, 0), Some(Bump::Void));
    assert_eq!(world.bump(0, 1), None);
    assert_eq!(world.bump(5, 5), None);
}

#[test]
fn a_tick_lets_pieces_without_a_player_act() {
    let mut world = game();
    assert!(!world.characters[0].player_controlled);
    assert!(world.tick(None, None));
    assert_eq!(world.characters[0].sheet.id, "esprit:luvui");
    assert!(!world.tick(None, None));
    assert_eq!(world.characters[0].sheet.id, "esprit:luvui");
}

#[test]
fn pieces_far_from_the_origin_find_their_way() {
    let far = 1_500_000_000;
    let mut world = game();
    world.characters[0].x = far;
    world.characters[1].x = far - 5;
    world.current_floor = floor_with(&[
        (far, 0, Tile::Floor),
        (far + 1, 0, Tile::Wall),
        (far + 1, 1, Tile::Wall),
        (far + 1, -1, Tile::Floor),
        (far + 2, -1, Tile::Floor),
        (far + 2, 0, Tile::Floor),
    ]);
    assert_eq!(world.move_towards(far + 2, 0), Some(SQRT2_TURN));
    assert_eq!((world.characters[0].x, world.characters[0].y), (far + 1, -1));
}
