use esprit2::character::{Piece, Sheet, Stats};
use esprit2::consider::{saturating_cast, Consider, Heuristic};
use esprit2::draw::{xorshift, Camera};
use esprit2::gui::{is_word, Layout, Orientation, Rect, VariableColors};
use esprit2::nouns::{Nouns, Pronouns};
use esprit2::options::{resource_directory, user_directory};
use esprit2::requests::{considered_action, LuaAnswer, LuaCharacterQuery, LuaRequest};
use esprit2::script::{MaybeInline, Script};
use esprit2::world::{Action, Location, Manager};
use esprit2::character::Ref;
use esprit2::floor::{Floor, Tile};
use esprit2::TURN;

fn piece(x: i32, y: i32) -> Piece {
    let mut p = Piece::new(Sheet {
        id: String::from("esprit:slime"),
        nouns: Nouns { name: String::from("slime"), proper_name: false, pronouns: Pronouns::Object },
        level: 1,
        experience: 0,
        stats: Stats::default(),
        abilities: Vec::new(),
        on_consider: String::new(),
    });
    p.x = x;
    p.y = y;
    p
}

fn layout() -> Layout {
    Layout::new(Rect { x: 10, y: 20, width: 300, height: 100 })
}

#[test]
fn the_cursor_moves_down_by_default() {
    let mut l = layout();
    assert_eq!((l.x, l.y), (10, 20));
    l.advance(50, 16);
    assert_eq!((l.x, l.y), (10, 36));
}

#[test]
fn rows_are_as_tall_as_their_tallest_item() {
    let mut l = layout();
    l.horizontal();
    l.advance(40, 10);
    l.advance(30, 25);
    l.advance(5, 12);
    assert_eq!(l.x, 85);
    assert_eq!(l.orientation, Orientation::Horizontal { height: 25 });
    l.vertical();
    assert_eq!((l.x, l.y), (10, 45));
    assert_eq!(l.orientation, Orientation::Vertical);
}

#[test]
fn relocating_moves_to_the_new_corner() {
    let mut l = layout();
    l.advance(0, 50);
    l.relocate(Rect { x: -5, y: 7, width: 10, height: 10 });
    assert_eq!((l.x, l.y), (-5, 7));
}

#[test]
fn columns_share_the_width() {
    let l = layout();
    assert_eq!(l.column(0, 3), Rect { x: 10, y: 20, width: 100, height: 100 });
    assert_eq!(l.column(2, 3), Rect { x: 210, y: 20, width: 100, height: 100 });
    let mut l = layout();
    l.end_columns(70);
    assert_eq!(l.y, 70);
}

#[test]
fn stats_have_colors() {
    assert_eq!(<Stats as VariableColors>::get("power"), Some((255, 11, 64, 255)));
    assert_eq!(<Stats as VariableColors>::get("heart"), Some((96, 67, 18, 255)));
    assert_eq!(<Stats as VariableColors>::get("speed"), None);
    assert_eq!(<() as VariableColors>::get("power"), None);
    assert!(is_word("soul", "soul"));
    assert!(!is_word("soul", "soup"));
}

#[test]
fn the_camera_centers_the_character() {
    let mut camera = Camera::new();
    camera.update_size(640, 480);
    camera.focus_character(&piece(2, 3));
    assert_eq!(format!("{camera:?}"), "Camera { x: -160, y: -16, width: 640, height: 480 }");
    camera.focus_character_with_cursor(&piece(2, 3), (4, 3));
    assert_eq!(format!("{camera:?}"), "Camera { x: -96, y: -16, width: 640, height: 480 }");
}

#[test]
fn xorshift_scrambles() {
    assert_eq!(xorshift(1), 270369);
    assert_ne!(xorshift(2), xorshift(1));
}

#[test]
fn heuristics_answer_for_their_own_fields() {
    let target = Ref::new(piece(1, 1));
    let damage = Heuristic::Damage { target: target.clone(), amount: 4 };
    assert_eq!(damage.amount(), Some(4));
    assert!(damage.damage());
    assert!(!damage.debuff());
    assert_eq!(damage.x(), None);
    assert_eq!(damage.target().unwrap().borrow().x, 1);
    let step = Heuristic::Move { x: 3, y: -2 };
    assert_eq!((step.x(), step.y()), (Some(3), Some(-2)));
    assert!(step.target().is_none());
    assert_eq!(step.amount(), None);
}

#[test]
fn considerations_walk_their_heuristics() {
    let c = Consider {
        action: Action::Attack(String::from("bite")),
        heuristics: vec![Heuristic::Move { x: 1, y: 2 }, Heuristic::Move { x: 3, y: 4 }],
    };
    assert!(c.attack());
    assert!(!c.spell());
    let (next, first) = c.next(0).unwrap();
    assert_eq!(next, 1);
    assert_eq!(first.x(), Some(1));
    let (next, second) = c.next(1).unwrap();
    assert_eq!(next, 2);
    assert_eq!(second.y(), Some(4));
    assert!(c.next(2).is_none());
}

#[test]
fn without_a_consideration_a_piece_waits() {
    assert_eq!(considered_action(None), Action::Wait(TURN));
    let c = Consider { action: Action::Move(1, 1), heuristics: Vec::new() };
    assert_eq!(considered_action(Some(c)), Action::Move(1, 1));
}

#[test]
fn scripts_answer_requests() {
    let mut floor = Floor::new();
    *floor.get_mut(2, 2) = Some(Tile::Exit);
    let world = Manager {
        location: Location { level: String::from("esprit:dungeon"), floor: 0 },
        current_floor: floor,
        characters: vec![piece(0, 0), piece(5, 1), piece(1, -1)],
        party: Vec::new(),
        inventory: Vec::new(),
    };
    assert!(world.acts_alone());
    match world.answer(LuaRequest::Characters { query: Some(LuaCharacterQuery::Within { x: 0, y: 0, range: 1 }) }) {
        LuaAnswer::Characters(v) => assert_eq!(v, vec![0, 2]),
        other => panic!("unexpected answer {other:?}"),
    }
    match world.answer(LuaRequest::Characters { query: None }) {
        LuaAnswer::Characters(v) => assert_eq!(v, vec![0, 1, 2]),
        other => panic!("unexpected answer {other:?}"),
    }
    match world.answer(LuaRequest::Tile { x: 2, y: 2 }) {
        LuaAnswer::Tile(t) => assert_eq!(t, Some(Tile::Exit)),
        other => panic!("unexpected answer {other:?}"),
    }
}

#[test]
fn scripts_are_named_by_path_or_parent() {
    let inline = MaybeInline::Inline(String::from("return 1"));
    assert_eq!(inline.name("esprit:bite"), "esprit:bite (inline)");
    assert_eq!(inline.contents(), "return 1");
    let file = MaybeInline::Path(Script { path: String::from("scripts/bite.lua"), contents: String::from("return 2") });
    assert_eq!(file.name("esprit:bite"), "scripts/bite.lua");
    assert_eq!(file.contents(), "return 2");
}

#[test]
fn directories() {
    assert_eq!(user_directory(), "user/");
    assert_eq!(resource_directory(), "res/");
}

#[test]
fn pronouns_by_name() {
    assert_eq!(Pronouns::from_name("female"), Some(Pronouns::Female));
    assert_eq!(Pronouns::from_name("object"), Some(Pronouns::Object));
    assert_eq!(Pronouns::from_name("they"), None);
    assert_eq!(Pronouns::default(), Pronouns::Object);
}

#[test]
fn script_amounts_are_clamped() {
    assert_eq!(saturating_cast(-5), 0);
    assert_eq!(saturating_cast(17), 17);
    assert_eq!(saturating_cast(1 << 40), u32::MAX);
}

#[test]
fn handles_are_the_same_only_when_they_share_a_piece() {
    let p = piece(2, 5);
    let a = Ref::new(p.clone());
    let b = a.clone();
    assert!(a.same_as(&b));
    assert!(b.same_as(&a));
    let c = Ref::new(p);
    assert!(!a.same_as(&c));
    assert_eq!(c.borrow().x, a.borrow().x);
}
