//! The esprit2 engine: a tile-based roguelike's board, pathfinding,
//! character statistics, vault layouts and text templating.

pub mod astar;
pub mod character;
pub mod combat;
pub mod consider;
pub mod draw;
pub mod expression;
pub mod floor;
pub mod generation;
pub mod gui;
pub mod input;
pub mod item;
pub mod menu;
pub mod nouns;
pub mod options;
pub mod protocol;
pub mod requests;
pub mod resource;
pub mod script;
pub mod status;
pub mod vault;
pub mod world;

use vstd::prelude::*;

verus! {

/// Arbitrary Unit of Time.
pub type Aut = u32;

/// The length of a "turn".
///
/// This is arbitrary, but it effectively makes Auts a fixed-point fraction,
/// which is useful for dividing by common values like 2, 3, 4, and 6.
pub const TURN: Aut = 12;

/// For diagonal movement.
/// sqrt(2) * 12 = 16.9705627485, which we round to 17.
pub const SQRT2_TURN: Aut = 17;

/// An RGBA color.
pub type Color = (u8, u8, u8, u8);

#[derive(Copy, Clone, Debug, PartialEq, Eq, Structural)]
pub enum DirectionType {
    Cardinal,
    Ordinal,
}

/// The four cardinal directions.
#[derive(Copy, Clone, Debug, PartialEq, Eq, Structural)]
pub enum CardDir {
    Up,
    Right,
    Down,
    Left,
}

/// The offset that a cardinal direction points to, with `y` growing downwards.
pub open spec fn card_offset(d: CardDir) -> (int, int) {
    match d {
        CardDir::Up => (0, -1),
        CardDir::Right => (1, 0),
        CardDir::Down => (0, 1),
        CardDir::Left => (-1, 0),
    }
}

/// Whether an offset is one of the four cardinal unit steps.
pub open spec fn is_card_offset(x: int, y: int) -> bool {
    exists|d: CardDir| card_offset(d) == (x, y)
}

impl CardDir {
    /// Every cardinal direction, clockwise from `Up`.
    pub fn all() -> (res: [CardDir; 4])
        ensures
            res@ == seq![CardDir::Up, CardDir::Right, CardDir::Down, CardDir::Left],
    {
        [CardDir::Up, CardDir::Right, CardDir::Down, CardDir::Left]
    }

    pub fn as_offset(self) -> (res: (i32, i32))
        ensures
            (res.0 as int, res.1 as int) == card_offset(self),
    {
        match self {
            CardDir::Up => (0, -1),
            CardDir::Right => (1, 0),
            CardDir::Down => (0, 1),
            CardDir::Left => (-1, 0),
        }
    }

    pub fn from_offset(x: i32, y: i32) -> (res: Option<CardDir>)
        ensures
            match res {
                Some(d) => card_offset(d) == (x as int, y as int),
                None => !is_card_offset(x as int, y as int),
            },
    {
        let res = if x == 0 && y == -1 {
            Some(CardDir::Up)
        } else if x == 1 && y == 0 {
            Some(CardDir::Right)
        } else if x == 0 && y == 1 {
            Some(CardDir::Down)
        } else if x == -1 && y == 0 {
            Some(CardDir::Left)
        } else {
            None
        };
        proof {
            if res is None {
                assert forall|d: CardDir| card_offset(d) != (x as int, y as int) by {
                    match d {
                        CardDir::Up => {},
                        CardDir::Right => {},
                        CardDir::Down => {},
                        CardDir::Left => {},
                    }
                }
            }
        }
        res
    }
}

/// The eight directions a piece may step in.
#[derive(Copy, Clone, Debug, PartialEq, Eq, Structural)]
pub enum OrdDir {
    Up,
    UpRight,
    Right,
    DownRight,
    Down,
    DownLeft,
    Left,
    UpLeft,
}

/// The offset that an ordinal direction points to, with `y` growing downwards.
pub open spec fn ord_offset(d: OrdDir) -> (int, int) {
    match d {
        OrdDir::Up => (0, -1),
        OrdDir::UpRight => (1, -1),
        OrdDir::Right => (1, 0),
        OrdDir::DownRight => (1, 1),
        OrdDir::Down => (0, 1),
        OrdDir::DownLeft => (-1, 1),
        OrdDir::Left => (-1, 0),
        OrdDir::UpLeft => (-1, -1),
    }
}

/// Whether an offset is one of the eight unit steps (a neighbour of the origin).
pub open spec fn is_ord_offset(x: int, y: int) -> bool {
    -1 <= x <= 1 && -1 <= y <= 1 && !(x == 0 && y == 0)
}

/// Every ordinal direction in the order `OrdDir::all` yields them.
pub open spec fn ord_all() -> Seq<OrdDir> {
    seq![
        OrdDir::Up,
        OrdDir::UpRight,
        OrdDir::Right,
        OrdDir::DownRight,
        OrdDir::Down,
        OrdDir::DownLeft,
        OrdDir::Left,
        OrdDir::UpLeft,
    ]
}

impl OrdDir {
    /// Every ordinal direction, clockwise from `Up`.
    pub fn all() -> (res: [OrdDir; 8])
        ensures
            res@ == ord_all(),
    {
        [
            OrdDir::Up,
            OrdDir::UpRight,
            OrdDir::Right,
            OrdDir::DownRight,
            OrdDir::Down,
            OrdDir::DownLeft,
            OrdDir::Left,
            OrdDir::UpLeft,
        ]
    }

    pub fn as_offset(self) -> (res: (i32, i32))
        ensures
            (res.0 as int, res.1 as int) == ord_offset(self),
    {
        match self {
            OrdDir::Up => (0, -1),
            OrdDir::UpRight => (1, -1),
            OrdDir::Right => (1, 0),
            OrdDir::DownRight => (1, 1),
            OrdDir::Down => (0, 1),
            OrdDir::DownLeft => (-1, 1),
            OrdDir::Left => (-1, 0),
            OrdDir::UpLeft => (-1, -1),
        }
    }

    pub fn from_offset(x: i32, y: i32) -> (res: Option<OrdDir>)
        ensures
            match res {
                Some(d) => ord_offset(d) == (x as int, y as int),
                None => !is_ord_offset(x as int, y as int),
            },
    {
        if x == 0 && y == -1 {
            Some(OrdDir::Up)
        } else if x == 1 && y == -1 {
            Some(OrdDir::UpRight)
        } else if x == 1 && y == 0 {
            Some(OrdDir::Right)
        } else if x == 1 && y == 1 {
            Some(OrdDir::DownRight)
        } else if x == 0 && y == 1 {
            Some(OrdDir::Down)
        } else if x == -1 && y == 1 {
            Some(OrdDir::DownLeft)
        } else if x == -1 && y == 0 {
            Some(OrdDir::Left)
        } else if x == -1 && y == -1 {
            Some(OrdDir::UpLeft)
        } else {
            None
        }
    }
}

/// Reading a cardinal direction's offset back gives the same direction.
pub proof fn lemma_card_offset_round_trip(d: CardDir)
    ensures
        is_card_offset(card_offset(d).0, card_offset(d).1),
        forall|e: CardDir| card_offset(e) == card_offset(d) ==> e == d,
{
    assert forall|e: CardDir| card_offset(e) == card_offset(d) implies e == d by {
        match e {
            CardDir::Up => {},
            CardDir::Right => {},
            CardDir::Down => {},
            CardDir::Left => {},
        }
    }
}

/// Each ordinal direction's offset is a unit step, and no two directions share one.
pub proof fn lemma_ord_offset_round_trip(d: OrdDir)
    ensures
        is_ord_offset(ord_offset(d).0, ord_offset(d).1),
        forall|e: OrdDir| ord_offset(e) == ord_offset(d) ==> e == d,
{
}

/// Every unit step is the offset of exactly one ordinal direction.
pub proof fn lemma_ord_offsets_cover(x: int, y: int)
    requires
        is_ord_offset(x, y),
    ensures
        exists|d: OrdDir| ord_offset(d) == (x, y),
{
    if x == 0 && y == -1 {
        assert(ord_offset(OrdDir::Up) == (x, y));
    } else if x == 1 && y == -1 {
        assert(ord_offset(OrdDir::UpRight) == (x, y));
    } else if x == 1 && y == 0 {
        assert(ord_offset(OrdDir::Right) == (x, y));
    } else if x == 1 && y == 1 {
        assert(ord_offset(OrdDir::DownRight) == (x, y));
    } else if x == 0 && y == 1 {
        assert(ord_offset(OrdDir::Down) == (x, y));
    } else if x == -1 && y == 1 {
        assert(ord_offset(OrdDir::DownLeft) == (x, y));
    } else if x == -1 && y == 0 {
        assert(ord_offset(OrdDir::Left) == (x, y));
    } else {
        assert(ord_offset(OrdDir::UpLeft) == (x, y));
    }
}

/// The cardinal directions are exactly the ordinal directions without a diagonal component.
pub proof fn lemma_card_offsets_are_ord_offsets(d: CardDir)
    ensures
        is_ord_offset(card_offset(d).0, card_offset(d).1),
        card_offset(d).0 == 0 || card_offset(d).1 == 0,
{
}

/// The directions form a compass with `y` growing downwards: up is one step towards smaller
/// `y`; a quarter turn clockwise takes each direction to the one two places on in `ord_all`;
/// each diagonal is the sum of the two directions it is named after; and each cardinal
/// direction points where the ordinal direction of the same name does.
pub proof fn lemma_ord_compass()
    ensures
        ord_offset(OrdDir::Up) == (0int, -1int),
        forall|i: int|
            #![trigger ord_all()[i]]
            0 <= i < 8 ==> ord_offset(ord_all()[(i + 2) % 8]) == (-ord_offset(ord_all()[i]).1, ord_offset(ord_all()[i]).0),
        ord_offset(OrdDir::UpRight) == (ord_offset(OrdDir::Up).0 + ord_offset(OrdDir::Right).0, ord_offset(OrdDir::Up).1
            + ord_offset(OrdDir::Right).1),
        ord_offset(OrdDir::DownRight) == (ord_offset(OrdDir::Down).0 + ord_offset(OrdDir::Right).0, ord_offset(
            OrdDir::Down,
        ).1 + ord_offset(OrdDir::Right).1),
        ord_offset(OrdDir::DownLeft) == (ord_offset(OrdDir::Down).0 + ord_offset(OrdDir::Left).0, ord_offset(
            OrdDir::Down,
        ).1 + ord_offset(OrdDir::Left).1),
        ord_offset(OrdDir::UpLeft) == (ord_offset(OrdDir::Up).0 + ord_offset(OrdDir::Left).0, ord_offset(OrdDir::Up).1
            + ord_offset(OrdDir::Left).1),
        card_offset(CardDir::Up) == ord_offset(OrdDir::Up),
        card_offset(CardDir::Right) == ord_offset(OrdDir::Right),
        card_offset(CardDir::Down) == ord_offset(OrdDir::Down),
        card_offset(CardDir::Left) == ord_offset(OrdDir::Left),
{
    assert forall|i: int| #![trigger ord_all()[i]] 0 <= i < 8 implies ord_offset(ord_all()[(i + 2) % 8]) == (
        -ord_offset(ord_all()[i]).1,
        ord_offset(ord_all()[i]).0,
    ) by {
        if i < 6 {
            assert((i + 2) % 8 == i + 2);
        } else {
            assert((i + 2) % 8 == i - 6);
        }
    }
}

} // verus!
