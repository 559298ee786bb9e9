use esprit2::floor::Tile;
use esprit2::input::{controllable_character, Answer, Effect, Key, Mode, Pressed, Surroundings};

fn key(code: u32, pressed: Pressed) -> Key {
    Key { code, pressed }
}

fn around() -> Surroundings {
    Surroundings { position: (3, 4), underfoot: Some(Tile::Floor), candidates: 2, abilities: 1 }
}

#[test]
fn direction_keys_move() {
    let (mode, effects) = controllable_character(&key(104, Pressed { left: true, ..Default::default() }), Mode::Normal, &around());
    assert_eq!(mode, Mode::Normal);
    assert_eq!(effects, vec![Effect::Move(2, 4)]);
    let (_, effects) = controllable_character(&key(0, Pressed { down_right: true, ..Default::default() }), Mode::Normal, &around());
    assert_eq!(effects, vec![Effect::Move(4, 5)]);
}

#[test]
fn the_first_bound_direction_wins() {
    let pressed = Pressed { down: true, up_left: true, ..Default::default() };
    let (_, effects) = controllable_character(&key(0, pressed), Mode::Normal, &around());
    assert_eq!(effects, vec![Effect::Move(3, 5)]);
}

#[test]
fn act_and_select_open_their_modes() {
    let (mode, effects) = controllable_character(&key(0, Pressed { act: true, ..Default::default() }), Mode::Normal, &around());
    assert_eq!(mode, Mode::Act);
    assert!(effects.is_empty());
    let (mode, _) = controllable_character(&key(0, Pressed { select: true, ..Default::default() }), Mode::Normal, &around());
    assert_eq!(mode, Mode::Select);
}

#[test]
fn looking_down_talking_and_autocombat_happen_in_order() {
    let pressed = Pressed { underfoot: true, talk: true, autocombat: true, ..Default::default() };
    let (mode, effects) = controllable_character(&key(0, pressed), Mode::Normal, &around());
    assert_eq!(mode, Mode::Normal);
    assert_eq!(effects, vec![Effect::NothingUnderfoot, Effect::Talk, Effect::Autocombat]);
    let void = Surroundings { underfoot: None, ..around() };
    let (_, effects) = controllable_character(&key(0, Pressed { underfoot: true, ..Default::default() }), Mode::Normal, &void);
    assert_eq!(effects, vec![Effect::Void]);
    let wall = Surroundings { underfoot: Some(Tile::Wall), ..around() };
    let (_, effects) = controllable_character(&key(0, Pressed { underfoot: true, ..Default::default() }), Mode::Normal, &wall);
    assert!(effects.is_empty());
}

#[test]
fn letters_select_points_of_interest() {
    let (mode, effects) = controllable_character(&key(98, Pressed::default()), Mode::Select, &around());
    assert_eq!(mode, Mode::Normal);
    assert_eq!(effects, vec![Effect::Select(1)]);
    let (_, effects) = controllable_character(&key(99, Pressed::default()), Mode::Select, &around());
    assert!(effects.is_empty());
    let (_, effects) = controllable_character(&key(27, Pressed::default()), Mode::Select, &around());
    assert!(effects.is_empty());
}

#[test]
fn letters_use_abilities_unless_escaping() {
    let (mode, effects) = controllable_character(&key(97, Pressed::default()), Mode::Act, &around());
    assert_eq!(mode, Mode::Normal);
    assert_eq!(effects, vec![Effect::UseAbility(0)]);
    let (_, effects) = controllable_character(&key(97, Pressed { escape: true, ..Default::default() }), Mode::Act, &around());
    assert!(effects.is_empty());
}

#[test]
fn the_cursor_stays_within_range() {
    let cursor = Mode::Cursor { origin: (0, 0), position: (1, 0), range: 1, radius: None };
    let (mode, effects) = controllable_character(&key(0, Pressed { right: true, ..Default::default() }), cursor, &around());
    assert_eq!(mode, Mode::Cursor { origin: (0, 0), position: (1, 0), range: 1, radius: None });
    assert!(effects.is_empty());
    let (mode, _) = controllable_character(&key(0, Pressed { up_left: true, ..Default::default() }), cursor, &around());
    assert_eq!(mode, Mode::Cursor { origin: (0, 0), position: (0, -1), range: 1, radius: None });
    let (mode, effects) = controllable_character(&key(0, Pressed { confirm: true, ..Default::default() }), cursor, &around());
    assert_eq!(mode, Mode::Normal);
    assert_eq!(effects, vec![Effect::Resolve(Answer::Position(1, 0))]);
}

#[test]
fn prompts_take_yes_no_or_escape() {
    let (mode, effects) = controllable_character(&key(0, Pressed { yes: true, ..Default::default() }), Mode::Prompt, &around());
    assert_eq!((mode, effects), (Mode::Normal, vec![Effect::Resolve(Answer::Yes)]));
    let (mode, effects) = controllable_character(&key(0, Pressed { no: true, ..Default::default() }), Mode::Prompt, &around());
    assert_eq!((mode, effects), (Mode::Normal, vec![Effect::Resolve(Answer::No)]));
    let (mode, effects) = controllable_character(&key(0, Pressed::default()), Mode::Prompt, &around());
    assert_eq!((mode, effects), (Mode::Prompt, vec![]));
}

#[test]
fn direction_prompts_take_a_direction() {
    let (mode, effects) = controllable_character(&key(0, Pressed { up: true, ..Default::default() }), Mode::DirectionPrompt, &around());
    assert_eq!((mode, effects), (Mode::Normal, vec![Effect::Resolve(Answer::Up)]));
    let (mode, effects) = controllable_character(&key(0, Pressed { escape: true, ..Default::default() }), Mode::DirectionPrompt, &around());
    assert_eq!((mode, effects), (Mode::Normal, vec![]));
}
