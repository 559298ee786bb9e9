//! What a key does to a controllable character, in each input mode.
//!
//! The decisions are made here; the caller performs the effects (printing, running scripts)
//! and keeps whatever the pending mode needs besides its shape.

use crate::floor::{Floor, Tile};
use crate::world::Manager;
use crate::{ord_offset, OrdDir};
use vstd::prelude::*;

verus! {

/// The controls that a pressed key is bound to.
#[derive(Clone, Copy, Debug, Default)]
pub struct Pressed {
    pub left: bool,
    pub right: bool,
    pub up: bool,
    pub down: bool,
    pub up_left: bool,
    pub up_right: bool,
    pub down_left: bool,
    pub down_right: bool,
    pub talk: bool,
    pub autocombat: bool,
    pub select: bool,
    pub act: bool,
    pub underfoot: bool,
    pub yes: bool,
    pub no: bool,
    pub confirm: bool,
    pub escape: bool,
}

/// The key's code (`'a'` is 97), and the controls it is bound to.
#[derive(Clone, Copy, Debug)]
pub struct Key {
    pub code: u32,
    pub pressed: Pressed,
}

/// The shape of an input mode.
#[derive(Clone, Copy, Debug, PartialEq, Eq)]
pub enum Mode {
    Normal,
    Select,
    Act,
    /// Choosing a position within `range` of `origin`.
    Cursor { origin: (i32, i32), position: (i32, i32), range: u32, radius: Option<u32> },
    /// A yes-or-no question.
    Prompt,
    /// A question answered with a direction.
    DirectionPrompt,
}

/// The answer handed to a pending request.
#[derive(Clone, Copy, Debug, PartialEq, Eq, Structural)]
pub enum Answer {
    Position(i32, i32),
    Yes,
    No,
    Left,
    Right,
    Up,
    Down,
}

/// What the caller is to do for a key.
#[derive(Clone, Copy, Debug, PartialEq, Eq, Structural)]
pub enum Effect {
    /// Respond with a move of the next character to this position.
    Move(i32, i32),
    /// Say that there is nothing on the ground.
    NothingUnderfoot,
    /// Say that the character stands on the void.
    Void,
    /// Let the party chat.
    Talk,
    /// Let the game choose an action for the next character.
    Autocombat,
    /// Respond with the point of interest of this index.
    Select(usize),
    /// Use the next character's ability of this index.
    UseAbility(usize),
    /// Hand this answer to the pending request.
    Resolve(Answer),
}

/// What the game around the next character looks like.
#[derive(Clone, Copy, Debug)]
pub struct Surroundings {
    /// Where the next character stands.
    pub position: (i32, i32),
    /// The tile under it.
    pub underfoot: Option<Tile>,
    /// How many points of interest can be selected.
    pub candidates: usize,
    /// How many abilities the next character has.
    pub abilities: usize,
}

/// The eight directions in the order they are looked up, with their offsets.
pub open spec fn direction_pressed(p: Pressed, d: int) -> bool {
    if d == 0 { p.left } else if d == 1 { p.right } else if d == 2 { p.up } else if d == 3 { p.down }
    else if d == 4 { p.up_left } else if d == 5 { p.up_right } else if d == 6 { p.down_left }
    else { p.down_right }
}

pub open spec fn direction_offset(d: int) -> (int, int) {
    if d == 0 { (-1, 0) } else if d == 1 { (1, 0) } else if d == 2 { (0, -1) } else if d == 3 { (0, 1) }
    else if d == 4 { (-1, -1) } else if d == 5 { (1, -1) } else if d == 6 { (-1, 1) } else { (1, 1) }
}

/// The first of the eight directions, from `from` on, that the key is bound to.
pub open spec fn first_direction(p: Pressed, from: int) -> Option<int>
    decreases 8 - from,
{
    if from < 0 || from >= 8 {
        None
    } else if direction_pressed(p, from) {
        Some(from)
    } else {
        first_direction(p, from + 1)
    }
}

/// The letter index of a key: its distance from `'a'`, for keys from `'a'` on.
pub open spec fn letter(code: u32) -> Option<int> {
    if code >= 97 { Some(code - 97) } else { None }
}

/// The cursor moved by every direction the key is bound to, from `from` on, each coordinate only
/// where it stays strictly within `r` of the origin.
pub open spec fn cursor_moved(p: Pressed, origin: (i32, i32), position: (int, int), r: int, from: int) -> (int, int)
    decreases 8 - from,
{
    if from < 0 || from >= 8 {
        position
    } else {
        let (xo, yo) = direction_offset(from);
        let tx = position.0 + xo;
        let ty = position.1 + yo;
        let next = if direction_pressed(p, from) {
            (
                if origin.0 - r < tx < origin.0 + r { tx } else { position.0 },
                if origin.1 - r < ty < origin.1 + r { ty } else { position.1 },
            )
        } else {
            position
        };
        cursor_moved(p, origin, next, r, from + 1)
    }
}

/// The effects of a key in the normal mode that neither moves, acts nor selects.
pub open spec fn normal_effects(p: Pressed, underfoot: Option<Tile>) -> Seq<Effect> {
    (if p.underfoot && underfoot == Some(Tile::Floor) {
        seq![Effect::NothingUnderfoot]
    } else if p.underfoot && underfoot is None {
        seq![Effect::Void]
    } else {
        Seq::empty()
    }) + (if p.talk { seq![Effect::Talk] } else { Seq::empty() }) + (if p.autocombat {
        seq![Effect::Autocombat]
    } else {
        Seq::empty()
    })
}

/// What a key does in a mode: the next mode, and the effects in the order they are to happen.
pub open spec fn respond(key: Key, mode: Mode, s: Surroundings) -> (Mode, Seq<Effect>) {
    let p = key.pressed;
    match mode {
        Mode::Normal => match first_direction(p, 0) {
            Some(d) => (
                Mode::Normal,
                seq![Effect::Move((s.position.0 + direction_offset(d).0) as i32, (s.position.1 + direction_offset(d).1) as i32)],
            ),
            None => if p.act {
                (Mode::Act, Seq::empty())
            } else if p.select {
                (Mode::Select, Seq::empty())
            } else {
                (Mode::Normal, normal_effects(p, s.underfoot))
            },
        },
        Mode::Select => (
            Mode::Normal,
            match letter(key.code) {
                Some(i) => if i <= 26 && i < s.candidates { seq![Effect::Select(i as usize)] } else { Seq::empty() },
                None => Seq::empty(),
            },
        ),
        Mode::Act => if p.escape {
            (Mode::Normal, Seq::empty())
        } else {
            (
                Mode::Normal,
                match letter(key.code) {
                    Some(i) => if i <= 26 && i < s.abilities { seq![Effect::UseAbility(i as usize)] } else { Seq::empty() },
                    None => Seq::empty(),
                },
            )
        },
        Mode::Cursor { origin, position, range, radius } => {
            let moved = cursor_moved(p, origin, (position.0 as int, position.1 as int), range + 1, 0);
            let moved = (moved.0 as i32, moved.1 as i32);
            if p.escape {
                (Mode::Normal, Seq::empty())
            } else if p.confirm {
                (Mode::Normal, seq![Effect::Resolve(Answer::Position(moved.0, moved.1))])
            } else {
                (Mode::Cursor { origin, position: moved, range, radius }, Seq::empty())
            }
        },
        Mode::Prompt => if p.yes {
            (Mode::Normal, seq![Effect::Resolve(Answer::Yes)])
        } else if p.no {
            (Mode::Normal, seq![Effect::Resolve(Answer::No)])
        } else if p.escape {
            (Mode::Normal, Seq::empty())
        } else {
            (Mode::Prompt, Seq::empty())
        },
        Mode::DirectionPrompt => if p.left {
            (Mode::Normal, seq![Effect::Resolve(Answer::Left)])
        } else if p.right {
            (Mode::Normal, seq![Effect::Resolve(Answer::Right)])
        } else if p.up {
            (Mode::Normal, seq![Effect::Resolve(Answer::Up)])
        } else if p.down {
            (Mode::Normal, seq![Effect::Resolve(Answer::Down)])
        } else if p.escape {
            (Mode::Normal, Seq::empty())
        } else {
            (Mode::DirectionPrompt, Seq::empty())
        },
    }
}

/// Whether the key can be handled without leaving the range of `i32` or reaching the exit,
/// which cannot be looked at yet.
pub open spec fn can_respond(key: Key, mode: Mode, s: Surroundings) -> bool {
    match mode {
        Mode::Normal => {
            &&& i32::MIN < s.position.0 < i32::MAX
            &&& i32::MIN < s.position.1 < i32::MAX
            &&& !(first_direction(key.pressed, 0) is None && !key.pressed.act && !key.pressed.select
                && key.pressed.underfoot && s.underfoot == Some(Tile::Exit))
        },
        Mode::Cursor { origin, position, range, .. } => {
            &&& range < i32::MAX
            &&& i32::MIN <= origin.0 - (range + 1) && origin.0 + (range + 1) <= i32::MAX
            &&& i32::MIN <= origin.1 - (range + 1) && origin.1 + (range + 1) <= i32::MAX
        },
        _ => true,
    }
}

fn direction_of(p: &Pressed, d: usize) -> (res: (bool, i32, i32))
    requires
        d < 8,
    ensures
        res.0 == direction_pressed(*p, d as int),
        res.1 == direction_offset(d as int).0,
        res.2 == direction_offset(d as int).1,
{
    if d == 0 { (p.left, -1, 0) } else if d == 1 { (p.right, 1, 0) } else if d == 2 { (p.up, 0, -1) }
    else if d == 3 { (p.down, 0, 1) } else if d == 4 { (p.up_left, -1, -1) } else if d == 5 { (p.up_right, 1, -1) }
    else if d == 6 { (p.down_left, -1, 1) } else { (p.down_right, 1, 1) }
}

/// Whether the key is bound to the direction `d`: the control named after it.
pub open spec fn bound_to(p: Pressed, d: OrdDir) -> bool {
    match d {
        OrdDir::Up => p.up,
        OrdDir::UpRight => p.up_right,
        OrdDir::Right => p.right,
        OrdDir::DownRight => p.down_right,
        OrdDir::Down => p.down,
        OrdDir::DownLeft => p.down_left,
        OrdDir::Left => p.left,
        OrdDir::UpLeft => p.up_left,
    }
}

/// In the normal mode, a key bound to one direction and no other moves the character one step
/// that way: to its position moved by the offset of that direction, as the board counts it.
pub proof fn lemma_direction_keys_step(key: Key, s: Surroundings, d: OrdDir)
    requires
        bound_to(key.pressed, d),
        forall|e: OrdDir| e != d ==> !#[trigger] bound_to(key.pressed, e),
    ensures
        respond(key, Mode::Normal, s) == (
            Mode::Normal,
            seq![Effect::Move((s.position.0 + ord_offset(d).0) as i32, (s.position.1 + ord_offset(d).1) as i32)],
        ),
{
    let p = key.pressed;
    assert(bound_to(p, OrdDir::Up) == p.up);
    assert(bound_to(p, OrdDir::UpRight) == p.up_right);
    assert(bound_to(p, OrdDir::Right) == p.right);
    assert(bound_to(p, OrdDir::DownRight) == p.down_right);
    assert(bound_to(p, OrdDir::Down) == p.down);
    assert(bound_to(p, OrdDir::DownLeft) == p.down_left);
    assert(bound_to(p, OrdDir::Left) == p.left);
    assert(bound_to(p, OrdDir::UpLeft) == p.up_left);
    reveal_with_fuel(first_direction, 9);
}

/// What `key` does in `mode`: the next mode, and the effects the caller is to carry out in order.
pub fn controllable_character(key: &Key, mode: Mode, s: &Surroundings) -> (res: (Mode, Vec<Effect>))
    requires
        can_respond(*key, mode, *s),
    ensures
        (res.0, res.1@) == respond(*key, mode, *s),
{
    let p = &key.pressed;
    match mode {
        Mode::Normal => {
            let mut d: usize = 0;
            while d < 8
                invariant
                    0 <= d <= 8,
                    mode == Mode::Normal,
                    p == &key.pressed,
                    first_direction(*p, 0) == first_direction(*p, d as int),
                    i32::MIN < s.position.0 < i32::MAX,
                    i32::MIN < s.position.1 < i32::MAX,
                decreases 8 - d,
            {
                let (pressed, xo, yo) = direction_of(p, d);
                if pressed {
                    let x = s.position.0 + xo;
                    let y = s.position.1 + yo;
                    let effects = vec![Effect::Move(x, y)];
                    assert(effects@ == seq![Effect::Move(x, y)]);
                    assert(first_direction(*p, d as int) == Some(d as int));
                    assert(x == (s.position.0 + direction_offset(d as int).0) as i32);
                    assert(y == (s.position.1 + direction_offset(d as int).1) as i32);
                    return (Mode::Normal, effects);
                }
                d += 1;
            }
            if p.act {
                return (Mode::Act, Vec::new());
            }
            if p.select {
                return (Mode::Select, Vec::new());
            }
            let mut effects: Vec<Effect> = Vec::new();
            if p.underfoot {
                match s.underfoot {
                    Some(Tile::Floor) => effects.push(Effect::NothingUnderfoot),
                    None => effects.push(Effect::Void),
                    _ => {},
                }
            }
            if p.talk {
                effects.push(Effect::Talk);
            }
            if p.autocombat {
                effects.push(Effect::Autocombat);
            }
            assert(effects@ == normal_effects(*p, s.underfoot));
            (Mode::Normal, effects)
        },
        Mode::Select => {
            let mut effects: Vec<Effect> = Vec::new();
            if key.code >= 97 {
                let i = key.code - 97;
                if i <= 26 && (i as usize) < s.candidates {
                    effects.push(Effect::Select(i as usize));
                }
            }
            (Mode::Normal, effects)
        },
        Mode::Act => {
            let mut effects: Vec<Effect> = Vec::new();
            if !p.escape && key.code >= 97 {
                let i = key.code - 97;
                if i <= 26 && (i as usize) < s.abilities {
                    effects.push(Effect::UseAbility(i as usize));
                }
            }
            (Mode::Normal, effects)
        },
        Mode::Cursor { origin, position, range, radius } => {
            let r = range as i32 + 1;
            let mut pos = position;
            let mut d: usize = 0;
            while d < 8
                invariant
                    0 <= d <= 8,
                    r == range + 1,
                    range < i32::MAX,
                    i32::MIN <= origin.0 - r && origin.0 + r <= i32::MAX,
                    i32::MIN <= origin.1 - r && origin.1 + r <= i32::MAX,
                    cursor_moved(*p, origin, (position.0 as int, position.1 as int), r as int, 0)
                        == cursor_moved(*p, origin, (pos.0 as int, pos.1 as int), r as int, d as int),
                decreases 8 - d,
            {
                let (pressed, xo, yo) = direction_of(p, d);
                if pressed {
                    let tx = pos.0 as i64 + xo as i64;
                    let ty = pos.1 as i64 + yo as i64;
                    let x_low: i64 = (origin.0 - r) as i64;
                    let x_high: i64 = (origin.0 + r) as i64;
                    let y_low: i64 = (origin.1 - r) as i64;
                    let y_high: i64 = (origin.1 + r) as i64;
                    let nx = if x_low < tx && tx < x_high { tx as i32 } else { pos.0 };
                    let ny = if y_low < ty && ty < y_high { ty as i32 } else { pos.1 };
                    pos = (nx, ny);
                }
                d += 1;
            }
            if p.escape {
                (Mode::Normal, Vec::new())
            } else if p.confirm {
                (Mode::Normal, vec![Effect::Resolve(Answer::Position(pos.0, pos.1))])
            } else {
                (Mode::Cursor { origin, position: pos, range, radius }, Vec::new())
            }
        },
        Mode::Prompt => {
            if p.yes {
                (Mode::Normal, vec![Effect::Resolve(Answer::Yes)])
            } else if p.no {
                (Mode::Normal, vec![Effect::Resolve(Answer::No)])
            } else if p.escape {
                (Mode::Normal, Vec::new())
            } else {
                (Mode::Prompt, Vec::new())
            }
        },
        Mode::DirectionPrompt => {
            if p.left {
                (Mode::Normal, vec![Effect::Resolve(Answer::Left)])
            } else if p.right {
                (Mode::Normal, vec![Effect::Resolve(Answer::Right)])
            } else if p.up {
                (Mode::Normal, vec![Effect::Resolve(Answer::Up)])
            } else if p.down {
                (Mode::Normal, vec![Effect::Resolve(Answer::Down)])
            } else if p.escape {
                (Mode::Normal, Vec::new())
            } else {
                (Mode::DirectionPrompt, Vec::new())
            }
        },
    }
}

/// A point of interest that can be selected: a piece, by its place in the queue, or an exit.
#[derive(Clone, Copy, Debug, PartialEq, Eq, Structural)]
pub enum Point {
    Character(usize),
    Exit(i32, i32),
}

/// Every point of interest: the pieces, in the order of the queue, then the exits of the floor.
pub fn assign_indicies(world: &Manager) -> (res: Vec<Point>)
    requires
        world.well_formed(),
    ensures
        world.characters@.len() <= res@.len(),
        forall|i: int| 0 <= i < world.characters@.len() ==> res@[i] == Point::Character(i as usize),
        forall|j: int|
            world.characters@.len() <= j < res@.len() ==> (#[trigger] res@[j] matches Point::Exit(x, y)
                && world.current_floor.tile(x, y) == Some(Tile::Exit)),
        forall|x: i32, y: i32| #[trigger] world.current_floor.tile(x, y) == Some(Tile::Exit) ==> res@.contains(Point::Exit(x, y)),
{
    let mut res: Vec<Point> = Vec::new();
    let n = world.characters.len();
    let mut i: usize = 0;
    while i < n
        invariant
            0 <= i <= n,
            n == world.characters@.len(),
            res@.len() == i,
            forall|k: int| 0 <= k < i ==> res@[k] == Point::Character(k as usize),
        decreases n - i,
    {
        res.push(Point::Character(i));
        i += 1;
    }
    let tiles = world.current_floor.iter();
    let mut j: usize = 0;
    while j < tiles.len()
        invariant
            0 <= j <= tiles@.len(),
            n == world.characters@.len(),
            n <= res@.len(),
            forall|k: int| 0 <= k < n ==> res@[k] == Point::Character(k as usize),
            forall|k: int|
                n <= k < res@.len() ==> (#[trigger] res@[k] matches Point::Exit(x, y) && world.current_floor.tile(x, y)
                    == Some(Tile::Exit)),
            forall|m: int| 0 <= m < tiles@.len() ==> #[trigger] world.current_floor.tile(tiles@[m].0, tiles@[m].1) == Some(tiles@[m].2),
            forall|m: int| 0 <= m < j && tiles@[m].2 == Tile::Exit ==> res@.contains(Point::Exit(tiles@[m].0, tiles@[m].1)),
        decreases tiles@.len() - j,
    {
        let (x, y, t) = tiles[j];
        assert(world.current_floor.tile(tiles@[j as int].0, tiles@[j as int].1) == Some(tiles@[j as int].2));
        let ghost before = res@;
        if t == Tile::Exit {
            res.push(Point::Exit(x, y));
            assert(res@[res@.len() - 1] == Point::Exit(x, y));
        }
        assert forall|m: int| 0 <= m < j + 1 && tiles@[m].2 == Tile::Exit implies res@.contains(
            Point::Exit(tiles@[m].0, tiles@[m].1),
        ) by {
            if m < j {
                let w = choose|w: int| 0 <= w < before.len() && before[w] == Point::Exit(tiles@[m].0, tiles@[m].1);
                assert(res@[w] == before[w]);
            } else {
                assert(res@[res@.len() - 1] == Point::Exit(x, y));
            }
        }
        j += 1;
    }
    assert forall|x: i32, y: i32| #[trigger] world.current_floor.tile(x, y) == Some(Tile::Exit) implies res@.contains(Point::Exit(x, y)) by {
        assert(world.current_floor.tile(x, y) is Some);
        let m = choose|m: int| 0 <= m < tiles@.len() && tiles@[m] == (x, y, Tile::Exit);
    }
    res
}

} // verus!
