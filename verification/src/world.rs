//! The state of a game in progress: the board, and the pieces on it taking turns.
//!
//! Pieces act in the order of the `characters` queue, which is kept sorted by
//! how long each piece still has to wait (`action_delay`).

use crate::astar::{self, in_search_bounds, lemma_step_is_closest, step_choice, IMPASSABLE, UNEXPLORED};
use crate::character::{Alliance, Piece, Ref, Sheet};
use crate::floor::{Floor, Tile};
use crate::resource::{self, Resource};
use crate::vault::Vault;
use crate::{ord_all, ord_offset, Aut, Color, OrdDir, SQRT2_TURN, TURN};
use vstd::prelude::*;
use vstd::string::*;

verus! {

/// A party member, and the color it is shown with.
#[derive(Debug)]
pub struct PartyReference {
    /// The piece that is being used by this party member.
    pub piece: Ref,
    /// Displayed on the pamphlet.
    pub accent_color: Color,
}

impl PartyReference {
    pub fn new(piece: Ref, accent_color: Color) -> (res: PartyReference)
        ensures
            res.piece == piece,
            res.accent_color == accent_color,
    {
        PartyReference { piece, accent_color }
    }
}

/// A party member to create: the identifier of its sheet and its color.
#[derive(Debug)]
pub struct PartyReferenceBase {
    pub sheet: String,
    pub accent_color: Color,
}

#[derive(Clone, Debug, PartialEq, Eq)]
pub struct Location {
    /// Which level is currently loaded.
    pub level: String,
    pub floor: usize,
}

/// Anything a character piece can "do".
#[derive(Clone, Debug, PartialEq, Eq)]
pub enum Action {
    /// Pass time.
    Wait(Aut),
    /// Walk towards a position.
    Move(i32, i32),
    /// Use the attack with this identifier; its script decides how long it takes.
    Attack(String),
    /// Cast the spell with this identifier; its script decides how long it takes.
    Cast(String),
}

/// All information that is relevant during gameplay.
#[derive(Debug)]
pub struct Manager {
    /// Where in the world the characters are.
    pub location: Location,
    pub current_floor: Floor,
    /// The pieces, in the order in which they act; the first one acts next.
    pub characters: Vec<Piece>,
    /// The members of the player's party, in the order they were given: the sheet of each
    /// member's piece and the color it is shown in.
    pub party: Vec<PartyReferenceBase>,
    pub inventory: Vec<String>,
}

/// The piece made for a member of a new party.
pub open spec fn party_piece(p: Piece, sheet: Sheet, leader: bool) -> bool {
    &&& p.sheet.same(sheet)
    &&& p.x == 0
    &&& p.y == 0
    &&& p.hp == sheet.stats.heart
    &&& p.sp == sheet.stats.soul
    &&& p.action_delay == 0
    &&& p.alliance == Alliance::Friendly
    &&& p.player_controlled == leader
}

/// Whether piece `p` stands at `(x, y)`.
pub open spec fn stands_at(p: Piece, x: i32, y: i32) -> bool {
    p.x == x && p.y == y
}

/// The index of the first piece of `cs` standing at `(x, y)`.
pub open spec fn first_at(cs: Seq<Piece>, x: i32, y: i32) -> Option<int> {
    if exists|i: int| 0 <= i < cs.len() && stands_at(cs[i], x, y) {
        Some(choose|i: int| 0 <= i < cs.len() && stands_at(cs[i], x, y) && forall|j: int| 0 <= j < i ==> !stands_at(cs[j], x, y))
    } else {
        None
    }
}

/// The index of the first piece of `cs` at `(x, y)`.
pub fn character_at(cs: &Vec<Piece>, x: i32, y: i32) -> (res: Option<usize>)
    ensures
        match res {
            Some(i) => i < cs@.len() && stands_at(cs@[i as int], x, y) && forall|j: int|
                0 <= j < i ==> !stands_at(cs@[j], x, y),
            None => forall|j: int| 0 <= j < cs@.len() ==> !stands_at(cs@[j], x, y),
        },
{
    let mut i: usize = 0;
    while i < cs.len()
        invariant
            0 <= i <= cs@.len(),
            forall|j: int| 0 <= j < i ==> !stands_at(cs@[j], x, y),
        decreases cs@.len() - i,
    {
        if cs[i].x == x && cs[i].y == y {
            return Some(i);
        }
        i += 1;
    }
    None
}

/// How long a step takes: diagonal steps are sqrt(2) times slower.
pub open spec fn step_delay(d: OrdDir) -> Aut {
    if ord_offset(d).0 != 0 && ord_offset(d).1 != 0 {
        SQRT2_TURN
    } else {
        TURN
    }
}

/// A tile that pieces may stand on.
pub open spec fn walkable(t: Option<Tile>) -> bool {
    t == Some(Tile::Floor) || t == Some(Tile::Exit)
}

/// `cs` after `d` auts have passed for every piece.
pub open spec fn tick(cs: Seq<Piece>, d: Aut) -> Seq<Piece> {
    Seq::new(
        cs.len(),
        |i: int|
            Piece {
                action_delay: if cs[i].action_delay >= d {
                    (cs[i].action_delay - d) as Aut
                } else {
                    0
                },
                ..cs[i]
            },
    )
}

/// The pieces of `cs` that are still standing (whose health is above 0), in order.
pub open spec fn survivors(cs: Seq<Piece>) -> Seq<Piece>
    decreases cs.len(),
{
    if cs.len() == 0 {
        cs
    } else if cs.last().hp > 0 {
        survivors(cs.drop_last()).push(cs.last())
    } else {
        survivors(cs.drop_last())
    }
}

/// Where a piece that has to wait `delay` joins the queue `cs`:
/// just before the first piece that has to wait longer.
pub open spec fn queue_position(cs: Seq<Piece>, delay: Aut) -> int
    decreases cs.len(),
{
    if cs.len() == 0 {
        0
    } else if cs[0].action_delay > delay {
        0
    } else {
        1 + queue_position(cs.skip(1), delay)
    }
}

/// The queue after its first piece has acted and has to wait `delay` before acting again.
pub open spec fn requeue(cs: Seq<Piece>, delay: Aut) -> Seq<Piece> {
    let c = Piece { action_delay: delay, ..cs[0] };
    let rest = cs.skip(1);
    let pos = queue_position(rest, delay);
    rest.take(pos).push(c) + rest.skip(pos)
}

/// The pieces of the queue are sorted by how long they still have to wait.
pub open spec fn sorted_by_delay(cs: Seq<Piece>) -> bool {
    forall|i: int, j: int| 0 <= i <= j < cs.len() ==> #[trigger] cs[i].action_delay <= #[trigger] cs[j].action_delay
}

/// The effect of an action on the queue before the dead are removed:
/// only a move changes anything, and only the position of the piece that acts.
pub open spec fn acted(
    before: Seq<Piece>,
    floor: Floor,
    after: Seq<Piece>,
    action: Action,
    delay: Option<Aut>,
    scripted: Option<Aut>,
) -> bool {
    match action {
        Action::Wait(d) => after == before && delay == Some(d),
        Action::Attack(_) | Action::Cast(_) => after == before && delay == scripted,
        Action::Move(tx, ty) => moved_towards(before, after, tx, ty, delay) && walked_towards(
            before,
            floor,
            after,
            tx,
            ty,
            delay,
        ),
    }
}

/// The first piece of `before` tries one step in direction `dir` on `floor`: onto floor or an
/// exit it moves, taking `delay`; against anything else it stays put and `delay` is `None`.
pub open spec fn took_step(before: Seq<Piece>, floor: Floor, after: Seq<Piece>, dir: OrdDir, delay: Option<Aut>) -> bool {
    let p = before[0];
    let n = astar::neighbour(p.x, p.y, dir);
    if walkable(floor.tile(n.0, n.1)) {
        &&& delay == Some(step_delay(dir))
        &&& after == before.update(0, Piece { x: n.0, y: n.1, ..p })
    } else {
        &&& delay is None
        &&& after == before
    }
}

/// From `(a, b)` at its distance on `m`, its neighbour in direction `w` cannot be brought closer
/// to the target by a piece of `alliance` walking among `cs` on `floor`.
pub open spec fn cost_relaxed(m: astar::Floor, cs: Seq<Piece>, floor: Floor, alliance: Alliance, a: i32, b: i32, w: OrdDir) -> bool {
    let n = astar::neighbour(a, b, w);
    ||| m.distance(n.0, n.1) == IMPASSABLE
    ||| m.distance(n.0, n.1) <= step_cost(cs, floor, alliance, n.0, n.1, m.distance(a, b))
}

/// `m` is a distance map that explores from `(tx, ty)` can leave for the first piece of `cs`
/// on `floor`: the target is at 0; every other reached tile holds the cost of entering it from a
/// neighbour no farther than the distance that cost was taken from; and either the search ran
/// out of tiles with no tile left to improve, or it reached the piece's tile from a reached
/// neighbour.
pub open spec fn explored_for(m: astar::Floor, cs: Seq<Piece>, floor: Floor, tx: i32, ty: i32) -> bool {
    let p = cs[0];
    &&& m.well_formed()
    &&& m.distance(tx, ty) == 0
    &&& forall|a: i32, b: i32|
        #[trigger] m.distance(a, b) != UNEXPLORED && (a, b) != (tx, ty) ==> exists|w: OrdDir, d: u16|
            #![trigger astar::neighbour(a, b, w), step_cost(cs, floor, p.alliance, a, b, d)]
            {
                let n = astar::neighbour(a, b, w);
                &&& m.distance(n.0, n.1) <= d
                &&& m.distance(a, b) == step_cost(cs, floor, p.alliance, a, b, d)
            }
    &&& {
        ||| m.frontier().len() == 0 && forall|a: i32, b: i32, w: OrdDir|
            m.distance(a, b) < IMPASSABLE ==> #[trigger] cost_relaxed(m, cs, floor, p.alliance, a, b, w)
        ||| exists|w: OrdDir|
            {
                let n = #[trigger] astar::neighbour(p.x, p.y, w);
                &&& m.distance(n.0, n.1) < IMPASSABLE
                &&& m.distance(p.x, p.y) <= step_cost(cs, floor, p.alliance, p.x, p.y, m.distance(n.0, n.1))
            }
    }
}

/// The first piece of `before` walked towards `(tx, ty)` on `floor`: straight onto the target
/// when it is next to it, and otherwise in the direction that `step` picks on a distance map
/// explored from the target (staying put, with no delay, when it picks none).
pub open spec fn walked_towards(before: Seq<Piece>, floor: Floor, after: Seq<Piece>, tx: i32, ty: i32, delay: Option<Aut>) -> bool {
    let p = before[0];
    if crate::is_ord_offset(tx - p.x, ty - p.y) {
        took_step(before, floor, after, choose|d: OrdDir| ord_offset(d) == (tx - p.x, ty - p.y), delay)
    } else {
        exists|m: astar::Floor|
            #[trigger] explored_for(m, before, floor, tx, ty) && match step_choice(m, p.x, p.y, ord_all()) {
                Some(c) => took_step(before, floor, after, c.0, delay),
                None => delay is None && after == before,
            }
    }
}

/// The first piece of `before` either stayed put (`delay` is `None`), or took one step
/// onto a walkable tile of `floor`, which took `delay`; a piece next to its target steps onto it if it can.
pub open spec fn moved_towards(before: Seq<Piece>, after: Seq<Piece>, tx: i32, ty: i32, delay: Option<Aut>) -> bool {
    let p = before[0];
    &&& match delay {
        None => after == before,
        Some(d) => exists|dir: OrdDir| {
            let x = (p.x + ord_offset(dir).0) as i32;
            let y = (p.y + ord_offset(dir).1) as i32;
            &&& d == #[trigger] step_delay(dir)
            &&& after == before.update(0, Piece { x, y, ..p })
            &&& (crate::is_ord_offset(tx - p.x, ty - p.y) ==> x == tx && y == ty)
        },
    }
}

/// `after` is `before` once its next piece has performed `action` (taking `scripted`, for an
/// attack or a spell): the waiting time of that piece passes for every piece, the action changes
/// the queue as `acted` says, the dead leave, and the piece that acted waits for as long as the
/// action took (a turn, when the action did not say). Nothing else changes.
pub open spec fn turn_taken(before: Manager, after: Manager, action: Action, scripted: Option<Aut>) -> bool {
    &&& exists|moved: Seq<Piece>, delay: Option<Aut>|
        {
            &&& #[trigger] acted(
                tick(before.characters@, before.characters@[0].action_delay),
                before.current_floor,
                moved,
                action,
                delay,
                scripted,
            )
            &&& after.characters@ == requeue(
                survivors(moved),
                match delay {
                    Some(d) => d,
                    None => TURN,
                },
            )
        }
    &&& after.current_floor == before.current_floor
    &&& after.location == before.location
    &&& after.inventory == before.inventory
    &&& after.party == before.party
}

/// A move, if `action` is one, has its target within the search bounds, and the piece that
/// makes it stands off the edges of the `i32` range, so that it has a neighbour on every side.
pub open spec fn in_search_bounds_of_move(cs: Seq<Piece>, action: Action) -> bool {
    action matches Action::Move(tx, ty) ==> in_search_bounds(tx as int, ty as int) && off_the_edges(
        cs[0].x,
        cs[0].y,
    )
}

/// `(x, y)` has a neighbour on every side within the `i32` range.
pub open spec fn off_the_edges(x: i32, y: i32) -> bool {
    i32::MIN < x < i32::MAX && i32::MIN < y < i32::MAX
}

/// Whether a piece of `alliance` (the first of `cs`) may walk onto `(x, y)`: it is floor or an
/// exit, and holds no other piece of that alliance.
pub open spec fn passable(cs: Seq<Piece>, floor: Floor, alliance: Alliance, x: i32, y: i32) -> bool {
    &&& !(first_at(cs, x, y) matches Some(i) && i != 0 && cs[i].alliance == alliance)
    &&& walkable(floor.tile(x, y))
}

/// The distance of `(x, y)` when entered from a tile at distance `base`: one more where it is passable.
pub open spec fn step_cost(cs: Seq<Piece>, floor: Floor, alliance: Alliance, x: i32, y: i32, base: u16) -> u16 {
    if passable(cs, floor, alliance, x, y) {
        (base + 1) as u16
    } else {
        IMPASSABLE
    }
}

/// The cost of entering `(x, y)` from a tile at distance `base` when walking as a piece of `alliance`:
/// walls, the void and allies (other than the walker) block the way.
pub fn path_cost(characters: &Vec<Piece>, floor: &Floor, alliance: Alliance, x: i32, y: i32, base: u16) -> (r: u16)
    requires
        base < IMPASSABLE,
        floor.well_formed(),
    ensures
        r == match first_at(characters@, x, y) {
            Some(i) if i != 0 && characters@[i].alliance == alliance => IMPASSABLE,
            _ => if walkable(floor.tile(x, y)) { (base + 1) as u16 } else { IMPASSABLE },
        },
        r == step_cost(characters@, *floor, alliance, x, y, base),
{
    let found = character_at(characters, x, y);
    proof {
        lemma_first_at(characters@, x, y, found);
    }
    if let Some(i) = found {
        if i != 0 && characters[i].alliance == alliance {
            return IMPASSABLE;
        }
    }
    match floor.get(x, y) {
        Some(Tile::Floor) | Some(Tile::Exit) => base + 1,
        Some(Tile::Wall) | None => IMPASSABLE,
    }
}

proof fn lemma_first_at(cs: Seq<Piece>, x: i32, y: i32, found: Option<usize>)
    requires
        match found {
            Some(i) => i < cs.len() && stands_at(cs[i as int], x, y) && forall|j: int|
                0 <= j < i ==> !stands_at(cs[j], x, y),
            None => forall|j: int| 0 <= j < cs.len() ==> !stands_at(cs[j], x, y),
        },
    ensures
        first_at(cs, x, y) == match found {
            Some(i) => Some(i as int),
            None => None::<int>,
        },
{
    if let Some(i) = found {
        let k = choose|k: int| 0 <= k < cs.len() && stands_at(cs[k], x, y) && forall|j: int| 0 <= j < k ==> !stands_at(cs[j], x, y);
        if k < i {
            assert(!stands_at(cs[k], x, y));
        }
        if k > i {
            assert(!stands_at(cs[i as int], x, y));
        }
    }
}

impl Manager {
    pub open spec fn well_formed(&self) -> bool {
        self.current_floor.well_formed()
    }

    /// A new game: an empty first floor and the party, whose first member is controlled by the player.
    ///
    /// The party is placed at the front of the queue with its last member first.
    ///
    /// # Errors
    ///
    /// Fails with the identifier of the first party member whose sheet does not exist.
    pub fn new(party_blueprint: &[PartyReferenceBase], sheets: &Resource<Sheet>) -> (res: Result<
        Manager,
        resource::Error,
    >)
        requires
            sheets.well_formed(),
        ensures
            match res {
                Ok(m) => {
                    &&& m.well_formed()
                    &&& forall|i: int| 0 <= i < party_blueprint@.len() ==> #[trigger] sheets.view().contains_key(party_blueprint@[i].sheet@)
                    &&& m.characters@.len() == party_blueprint@.len()
                    &&& m.party@.len() == party_blueprint@.len()
                    &&& forall|i: int|
                        0 <= i < party_blueprint@.len() ==> (#[trigger] m.party@[i]).sheet@ == party_blueprint@[i].sheet@
                            && m.party@[i].accent_color == party_blueprint@[i].accent_color
                    &&& forall|i: int|
                        0 <= i < party_blueprint@.len() ==> party_piece(
                            #[trigger] m.characters@[party_blueprint@.len() - 1 - i],
                            sheets.view()[party_blueprint@[i].sheet@],
                            i == 0,
                        )
                    &&& m.location.level@ == "New Level"@
                    &&& m.location.floor == 0
                    &&& forall|x: i32, y: i32| #[trigger] m.current_floor.tile(x, y) == None::<Tile>
                    &&& m.inventory@.len() == 21
                },
                Err(resource::Error::NotFound(id)) => exists|i: int|
                    0 <= i < party_blueprint@.len() && party_blueprint@[i].sheet@ == id@
                        && !sheets.view().contains_key(id@) && forall|j: int|
                        0 <= j < i ==> #[trigger] sheets.view().contains_key(party_blueprint@[j].sheet@),
            },
    {
        let mut characters: Vec<Piece> = Vec::new();
        let mut party: Vec<PartyReferenceBase> = Vec::new();
        let mut player_controlled = true;
        let mut i: usize = 0;
        while i < party_blueprint.len()
            invariant
                0 <= i <= party_blueprint@.len(),
                party@.len() == i,
                forall|j: int|
                    0 <= j < i ==> (#[trigger] party@[j]).sheet@ == party_blueprint@[j].sheet@
                        && party@[j].accent_color == party_blueprint@[j].accent_color,
                sheets.well_formed(),
                player_controlled == (i == 0),
                characters@.len() == i,
                forall|j: int| 0 <= j < i ==> #[trigger] sheets.view().contains_key(party_blueprint@[j].sheet@),
                forall|j: int|
                    0 <= j < i ==> party_piece(
                        #[trigger] characters@[i - 1 - j],
                        sheets.view()[party_blueprint@[j].sheet@],
                        j == 0,
                    ),
            decreases party_blueprint@.len() - i,
        {
            let sheet = match sheets.get(party_blueprint[i].sheet.as_str()) {
                Ok(sheet) => sheet,
                Err(e) => {
                    return Err(e);
                },
            };
            let mut character = Piece::new(sheet.clone());
            character.player_controlled = player_controlled;
            character.alliance = Alliance::Friendly;
            let ghost before = characters@;
            characters.insert(0, character);
            assert forall|j: int| 0 <= j < i + 1 implies party_piece(
                #[trigger] characters@[i + 1 - 1 - j],
                sheets.view()[party_blueprint@[j].sheet@],
                j == 0,
            ) by {
                if j < i {
                    assert(characters@[i + 1 - 1 - j] == before[i - 1 - j]);
                }
            }
            party.push(
                PartyReferenceBase {
                    sheet: party_blueprint[i].sheet.clone(),
                    accent_color: party_blueprint[i].accent_color,
                },
            );
            player_controlled = false;
            i += 1;
        }
        let level = String::from_str("New Level");
        proof {
            reveal_strlit("New Level");
        }
        let inventory = vec![
            String::from_str("items/aloe"),
            String::from_str("items/apple"),
            String::from_str("items/blinkfruit"),
            String::from_str("items/fabric_shred"),
            String::from_str("items/grapes"),
            String::from_str("items/ice_cream"),
            String::from_str("items/lily"),
            String::from_str("items/pear_on_a_stick"),
            String::from_str("items/pear"),
            String::from_str("items/pepper"),
            String::from_str("items/purefruit"),
            String::from_str("items/raspberry"),
            String::from_str("items/reviver_seed"),
            String::from_str("items/ring_alt"),
            String::from_str("items/ring"),
            String::from_str("items/scarf"),
            String::from_str("items/slimy_apple"),
            String::from_str("items/super_pepper"),
            String::from_str("items/twig"),
            String::from_str("items/water_chestnut"),
            String::from_str("items/watermelon"),
        ];
        Ok(Manager {
            location: Location { level, floor: 0 },
            current_floor: Floor::new(),
            characters,
            party,
            inventory,
        })
    }

    /// The piece that acts next.
    pub fn next_character(&self) -> (res: &Piece)
        requires
            self.characters@.len() > 0,
        ensures
            *res == self.characters@[0],
    {
        &self.characters[0]
    }

    /// The index of the first piece standing at `(x, y)`.
    pub fn get_character_at(&self, x: i32, y: i32) -> (res: Option<usize>)
        ensures
            match res {
                Some(i) => i < self.characters@.len() && stands_at(self.characters@[i as int], x, y)
                    && forall|j: int| 0 <= j < i ==> !stands_at(self.characters@[j], x, y),
                None => forall|j: int|
                    0 <= j < self.characters@.len() ==> !stands_at(self.characters@[j], x, y),
            },
    {
        character_at(&self.characters, x, y)
    }

    /// Moves the piece at `index` one step in direction `dir`, if the tile there can be walked on.
    ///
    /// Returns how long the step took, or `None` when the piece bumped into a wall or the void.
    pub fn move_piece(&mut self, index: usize, dir: OrdDir) -> (res: Option<Aut>)
        requires
            old(self).well_formed(),
            index < old(self).characters@.len(),
            i32::MIN < old(self).characters@[index as int].x < i32::MAX,
            i32::MIN < old(self).characters@[index as int].y < i32::MAX,
        ensures
            ({
                let p = old(self).characters@[index as int];
                let x = (p.x + ord_offset(dir).0) as i32;
                let y = (p.y + ord_offset(dir).1) as i32;
                if walkable(old(self).current_floor.tile(x, y)) {
                    &&& res == Some(step_delay(dir))
                    &&& final(self).characters@ == old(self).characters@.update(
                        index as int,
                        Piece { x, y, ..p },
                    )
                } else {
                    &&& res == None::<Aut>
                    &&& final(self).characters@ == old(self).characters@
                }
            }),
            final(self).current_floor == old(self).current_floor,
            final(self).location == old(self).location,
            final(self).inventory == old(self).inventory,
            final(self).party == old(self).party,
    {
        let (xoff, yoff) = dir.as_offset();
        let x = self.characters[index].x + xoff;
        let y = self.characters[index].y + yoff;
        let delay = if xoff != 0 && yoff != 0 {
            SQRT2_TURN
        } else {
            TURN
        };
        match self.current_floor.get(x, y) {
            Some(Tile::Floor) | Some(Tile::Exit) => {
                let mut piece = self.characters.remove(index);
                piece.x = x;
                piece.y = y;
                self.characters.insert(index, piece);
                Some(delay)
            },
            Some(Tile::Wall) | None => None,
        }
    }

    /// Moves the piece that acts next one step towards `(tx, ty)`: straight onto it when it is
    /// next to it, and otherwise along a path that avoids walls, the void and allied pieces.
    ///
    /// Returns how long the step took, or `None` when the piece did not move.
    #[verifier::rlimit(40)]
    pub fn move_towards(&mut self, tx: i32, ty: i32) -> (res: Option<Aut>)
        requires
            old(self).well_formed(),
            old(self).characters@.len() > 0,
            off_the_edges(old(self).characters@[0].x, old(self).characters@[0].y),
            in_search_bounds(tx as int, ty as int),
        ensures
            final(self).well_formed(),
            moved_towards(old(self).characters@, final(self).characters@, tx, ty, res),
            walked_towards(old(self).characters@, old(self).current_floor, final(self).characters@, tx, ty, res),
            res matches Some(_) ==> walkable(final(self).current_floor.tile(final(self).characters@[0].x, final(self).characters@[0].y)),
            crate::is_ord_offset(tx - old(self).characters@[0].x, ty - old(self).characters@[0].y) ==> (res is Some
                <==> walkable(old(self).current_floor.tile(tx, ty))),
            !crate::is_ord_offset(tx - old(self).characters@[0].x, ty - old(self).characters@[0].y) && res is Some
                ==> passable(
                old(self).characters@,
                old(self).current_floor,
                old(self).characters@[0].alliance,
                final(self).characters@[0].x,
                final(self).characters@[0].y,
            ),
            final(self).current_floor == old(self).current_floor,
            final(self).location == old(self).location,
            final(self).inventory == old(self).inventory,
            final(self).party == old(self).party,
    {
        let x = self.characters[0].x;
        let y = self.characters[0].y;
        let dx = tx as i64 - x as i64;
        let dy = ty as i64 - y as i64;
        let step = if -1 <= dx && dx <= 1 && -1 <= dy && dy <= 1 {
            OrdDir::from_offset(dx as i32, dy as i32)
        } else {
            None
        };
        if let Some(direction) = step {
            proof {
                crate::lemma_ord_offset_round_trip(direction);
            }
            let res = self.move_piece(0, direction);
            proof {
                if res is Some {
                    assert(self.characters@[0].x == tx && self.characters@[0].y == ty);
                }
                let chosen = choose|d: OrdDir| ord_offset(d) == (tx - x, ty - y);
                assert(ord_offset(direction) == (tx - x, ty - y));
                assert(chosen == direction);
                assert(took_step(old(self).characters@, old(self).current_floor, self.characters@, direction, res));
            }
            return res;
        }
        assert(!crate::is_ord_offset(tx - x, ty - y));
        let mut dijkstra = astar::Floor::target(&[(tx, ty)]);
        let ghost target_seq = seq![(tx, ty)];
        assert(dijkstra.frontier() == target_seq);
        assert(dijkstra.frontier_in_bounds());
        let characters = &self.characters;
        let floor = &self.current_floor;
        let alliance = self.characters[0].alliance;
        let cost = |ax: i32, ay: i32, base: u16| -> (r: u16)
            requires
                base < IMPASSABLE,
                floor.well_formed(),
            ensures
                r == step_cost(characters@, *floor, alliance, ax, ay, base),
        {
            let r = path_cost(characters, floor, alliance, ax, ay, base);
            r
        };
        let ghost initial = dijkstra;
        let ghost evaluate = cost;
        assert(astar::settled(initial, evaluate)) by {
            assert forall|a: i32, b: i32, w: OrdDir|
                initial.distance(a, b) < IMPASSABLE && !initial.frontier().contains((a, b))
                    implies #[trigger] astar::relaxed(initial, evaluate, a, b, w) by {
                assert(target_seq.contains((a, b)));
            }
        }
        dijkstra.explore(x, y, cost);
        proof {
            let cs = self.characters@;
            let fl = self.current_floor;
            assert(cs[0].alliance == alliance && cs[0].x == x && cs[0].y == y);
            assert(dijkstra.distance(tx, ty) == 0) by {
                assert(target_seq.contains((tx, ty))) by {
                    assert(target_seq[0] == (tx, ty));
                }
            }
            assert forall|a: i32, b: i32|
                #[trigger] dijkstra.distance(a, b) != UNEXPLORED && (a, b) != (tx, ty) implies exists|w: OrdDir, d: u16|
                    #![trigger astar::neighbour(a, b, w), step_cost(cs, fl, alliance, a, b, d)]
                    {
                        let n = astar::neighbour(a, b, w);
                        &&& dijkstra.distance(n.0, n.1) <= d
                        &&& dijkstra.distance(a, b) == step_cost(cs, fl, alliance, a, b, d)
                    } by {
                assert(!target_seq.contains((a, b))) by {
                    if target_seq.contains((a, b)) {
                        let i = choose|i: int| 0 <= i < target_seq.len() && target_seq[i] == (a, b);
                        assert(target_seq[i] == (tx, ty));
                    }
                }
                assert(initial.distance(a, b) == UNEXPLORED);
                assert(astar::entered_from_neighbour(dijkstra, evaluate, a, b));
                let (w, d) = choose|w: OrdDir, d: u16| astar::entered_via(dijkstra, evaluate, a, b, w, d);
                assert(call_ensures(evaluate, (a, b, d), dijkstra.distance(a, b)));
                assert(dijkstra.distance(a, b) == step_cost(cs, fl, alliance, a, b, d));
            }
            if astar::reached(dijkstra, evaluate, x, y) {
                let (w, r) = choose|w: OrdDir, r: u16|
                    #![trigger astar::neighbour(x, y, w), call_ensures(evaluate, (x, y, dijkstra.distance(astar::neighbour(x, y, w).0, astar::neighbour(x, y, w).1)), r)]
                    {
                        let n = astar::neighbour(x, y, w);
                        &&& dijkstra.distance(n.0, n.1) < IMPASSABLE
                        &&& call_ensures(evaluate, (x, y, dijkstra.distance(n.0, n.1)), r)
                        &&& dijkstra.distance(x, y) <= r
                    };
                let n = astar::neighbour(x, y, w);
                assert(r == step_cost(cs, fl, alliance, x, y, dijkstra.distance(n.0, n.1)));
            } else {
                assert forall|a: i32, b: i32, w: OrdDir|
                    dijkstra.distance(a, b) < IMPASSABLE implies #[trigger] cost_relaxed(dijkstra, cs, fl, alliance, a, b, w) by {
                    assert(!dijkstra.frontier().contains((a, b)));
                    assert(astar::relaxed(dijkstra, evaluate, a, b, w));
                    let n = astar::neighbour(a, b, w);
                    if dijkstra.distance(n.0, n.1) != IMPASSABLE {
                        let r = choose|r: u16| call_ensures(evaluate, (n.0, n.1, dijkstra.distance(a, b)), r) && dijkstra.distance(n.0, n.1) <= r;
                        assert(r == step_cost(cs, fl, alliance, n.0, n.1, dijkstra.distance(a, b)));
                    }
                }
            }
            assert(explored_for(dijkstra, cs, fl, tx, ty));
        }
        match dijkstra.step(x, y) {
            Some(direction) => {
                proof {
                    lemma_step_is_closest(dijkstra, x, y, ord_all());
                    crate::lemma_ord_offset_round_trip(direction);
                    let n = astar::neighbour(x, y, direction);
                    assert(n != (tx, ty));
                    assert(!target_seq.contains(n)) by {
                        if target_seq.contains(n) {
                            let i = choose|i: int| 0 <= i < target_seq.len() && target_seq[i] == n;
                            assert(target_seq[i] == (tx, ty));
                        }
                    }
                    assert(initial.distance(n.0, n.1) == UNEXPLORED);
                    assert(dijkstra.distance(n.0, n.1) != initial.distance(n.0, n.1));
                    assert(astar::entered_from_neighbour(dijkstra, evaluate, n.0, n.1));
                    let (w, d) = choose|w: OrdDir, d: u16| astar::entered_via(dijkstra, evaluate, n.0, n.1, w, d);
                    assert(call_ensures(evaluate, (n.0, n.1, d), dijkstra.distance(n.0, n.1)));
                    assert(passable(self.characters@, self.current_floor, alliance, n.0, n.1));
                }
                let res = self.move_piece(0, direction);
                proof {
                    if crate::is_ord_offset(tx - x, ty - y) {
                        crate::lemma_ord_offsets_cover((tx - x) as int, (ty - y) as int);
                    }
                    lemma_step_is_closest(dijkstra, x, y, ord_all());
                    assert(step_choice(dijkstra, x, y, ord_all()) matches Some(c) && c.0 == direction);
                    assert(took_step(old(self).characters@, old(self).current_floor, self.characters@, direction, res));
                }
                res
            },
            None => {
                proof {
                    assert(step_choice(dijkstra, x, y, ord_all()) is None);
                }
                None
            },
        }
    }
}

/// What a piece bumps into instead of stepping.
#[derive(Clone, Copy, Debug, PartialEq, Eq, Structural)]
pub enum Bump {
    Wall,
    Void,
}

impl Manager {
    /// What the next piece bumps into when it walks towards `(tx, ty)`: the wall or the void of
    /// a target next to it; nothing otherwise, since a longer walk only steps where it can.
    pub fn bump(&self, tx: i32, ty: i32) -> (res: Option<Bump>)
        requires
            self.well_formed(),
            self.characters@.len() > 0,
        ensures
            res == if crate::is_ord_offset(tx - self.characters@[0].x, ty - self.characters@[0].y) {
                match self.current_floor.tile(tx, ty) {
                    Some(Tile::Wall) => Some(Bump::Wall),
                    None => Some(Bump::Void),
                    _ => None,
                }
            } else {
                None
            },
    {
        let dx = tx as i64 - self.characters[0].x as i64;
        let dy = ty as i64 - self.characters[0].y as i64;
        if dx < -1 || dx > 1 || dy < -1 || dy > 1 || (dx == 0 && dy == 0) {
            return None;
        }
        match self.current_floor.get(tx, ty) {
            Some(Tile::Wall) => Some(Bump::Wall),
            None => Some(Bump::Void),
            _ => None,
        }
    }
}

impl Manager {
    /// Lets the piece that acts next perform `action`, then queues it again.
    ///
    /// First the waiting time of the acting piece passes for every piece. After the action,
    /// pieces whose health has run out are removed, and the first remaining piece waits for as long
    /// as the action took (a turn, when the action did not say) before it acts again.
    /// `scripted` is how long an attack or spell took, as its script decided.
    pub fn perform_action(&mut self, action: &Action, scripted: Option<Aut>)
        requires
            old(self).well_formed(),
            old(self).characters@.len() > 0,
            survivors(old(self).characters@).len() > 0,
            in_search_bounds_of_move(old(self).characters@, *action),
        ensures
            final(self).well_formed(),
            turn_taken(*old(self), *final(self), *action, scripted),
    {
        let delay = self.characters[0].action_delay;
        let ghost initial = self.characters@;
        let mut i: usize = 0;
        while i < self.characters.len()
            invariant
                0 <= i <= self.characters@.len(),
                self.characters@.len() == initial.len(),
                initial.len() > 0,
                self.current_floor == old(self).current_floor,
                self.location == old(self).location,
                self.inventory == old(self).inventory,
                self.party == old(self).party,
                self.well_formed(),
                delay == initial[0].action_delay,
                forall|j: int| 0 <= j < i ==> #[trigger] self.characters@[j] == tick(initial, delay)[j],
                forall|j: int| i <= j < initial.len() ==> #[trigger] self.characters@[j] == initial[j],
            decreases initial.len() - i,
        {
            let waited = self.characters[i].action_delay.saturating_sub(delay);
            self.characters[i].action_delay = waited;
            i += 1;
        }
        assert(self.characters@ == tick(initial, delay));
        proof {
            lemma_survivors_of_tick(initial, delay);
        }
        let ghost ticked = self.characters@;
        let taken = match action {
            Action::Wait(d) => Some(*d),
            Action::Move(tx, ty) => self.move_towards(*tx, *ty),
            Action::Attack(_) | Action::Cast(_) => scripted,
        };
        let ghost after = self.characters@;
        assert(acted(ticked, self.current_floor, after, *action, taken, scripted));
        proof {
            lemma_survivors_unchanged_by_move(ticked, self.current_floor, after, *action, taken, scripted);
        }
        // Remove dead characters.
        assert(after.len() == self.characters@.len());
        let mut all: Vec<Piece> = Vec::new();
        std::mem::swap(&mut all, &mut self.characters);
        let mut kept: Vec<Piece> = Vec::new();
        let mut k: usize = 0;
        assert(after.take(0) == Seq::<Piece>::empty());
        while all.len() > 0
            invariant
                k + all@.len() == after.len(),
                after.len() <= usize::MAX,
                all@ == after.skip(k as int),
                kept@ == survivors(after.take(k as int)),
            decreases all@.len(),
        {
            let piece = all.remove(0);
            assert(after.take(k + 1).drop_last() == after.take(k as int));
            assert(after.take(k + 1).last() == piece);
            if piece.hp > 0 {
                kept.push(piece);
            }
            assert(after.skip(k as int).skip(1) == after.skip(k + 1));
            k += 1;
        }
        assert(after.take(k as int) == after);
        let wait = match taken {
            Some(d) => d,
            None => TURN,
        };
        let mut character = kept.remove(0);
        character.action_delay = wait;
        let pos = queue_index(&kept, wait);
        kept.insert(pos, character);
        self.characters = kept;
        assert(self.characters@ == requeue(survivors(after), wait));
    }
}

/// Where a piece that has to wait `delay` joins the queue `cs`.
fn queue_index(cs: &Vec<Piece>, delay: Aut) -> (res: usize)
    ensures
        res == queue_position(cs@, delay),
        res <= cs@.len(),
{
    let mut i: usize = 0;
    assert(cs@.skip(0) == cs@);
    while i < cs.len()
        invariant
            0 <= i <= cs@.len(),
            queue_position(cs@, delay) == i + queue_position(cs@.skip(i as int), delay),
            forall|j: int| 0 <= j < i ==> cs@[j].action_delay <= delay,
        decreases cs@.len() - i,
    {
        if cs[i].action_delay > delay {
            return i;
        }
        assert(cs@.skip(i as int).skip(1) == cs@.skip(i + 1));
        i += 1;
    }
    i
}

proof fn lemma_survivors_of_tick(cs: Seq<Piece>, d: Aut)
    ensures
        survivors(tick(cs, d)).len() == survivors(cs).len(),
    decreases cs.len(),
{
    if cs.len() > 0 {
        assert(tick(cs, d).drop_last() == tick(cs.drop_last(), d));
        lemma_survivors_of_tick(cs.drop_last(), d);
    }
}

proof fn lemma_survivors_same_health(a: Seq<Piece>, b: Seq<Piece>)
    requires
        a.len() == b.len(),
        forall|i: int| 0 <= i < a.len() ==> #[trigger] a[i].hp == b[i].hp,
    ensures
        survivors(a).len() == survivors(b).len(),
    decreases a.len(),
{
    if a.len() > 0 {
        lemma_survivors_same_health(a.drop_last(), b.drop_last());
    }
}

proof fn lemma_survivors_unchanged_by_move(
    before: Seq<Piece>,
    floor: Floor,
    after: Seq<Piece>,
    action: Action,
    delay: Option<Aut>,
    scripted: Option<Aut>,
)
    requires
        acted(before, floor, after, action, delay, scripted),
        before.len() > 0,
    ensures
        after.len() == before.len(),
        survivors(after).len() == survivors(before).len(),
        forall|i: int| 0 <= i < after.len() ==> #[trigger] after[i].action_delay == before[i].action_delay,
{
    if let Action::Move(tx, ty) = action {
        if let Some(d) = delay {
            let dir = choose|dir: OrdDir| {
                let x = (before[0].x + ord_offset(dir).0) as i32;
                let y = (before[0].y + ord_offset(dir).1) as i32;
                &&& d == #[trigger] step_delay(dir)
                &&& after == before.update(0, Piece { x, y, ..before[0] })
                &&& (crate::is_ord_offset(tx - before[0].x, ty - before[0].y) ==> x == tx && y == ty)
            };
            lemma_survivors_same_health(before, after);
        }
    }
}

/// `p` is a piece of `s` whose health is above 0.
pub open spec fn member_alive(s: Seq<Piece>, p: Piece) -> bool {
    p.hp > 0 && s.contains(p)
}

proof fn lemma_survivors_members(s: Seq<Piece>)
    ensures
        survivors(s).len() <= s.len(),
        forall|i: int|
            0 <= i < survivors(s).len() ==> member_alive(s, #[trigger] survivors(s)[i]),
    decreases s.len(),
{
    if s.len() > 0 {
        let rest = s.drop_last();
        lemma_survivors_members(rest);
        assert forall|i: int| 0 <= i < survivors(s).len() implies member_alive(s, #[trigger] survivors(s)[i]) by {
            if i < survivors(rest).len() {
                assert(survivors(s)[i] == survivors(rest)[i]);
                assert(member_alive(rest, survivors(rest)[i]));
                let j = choose|j: int| 0 <= j < rest.len() && rest[j] == survivors(rest)[i];
                assert(s[j] == rest[j]);
            } else {
                assert(s[s.len() - 1] == s.last());
            }
        }
    }
}

proof fn lemma_survivors_sorted(s: Seq<Piece>)
    requires
        sorted_by_delay(s),
    ensures
        sorted_by_delay(survivors(s)),
    decreases s.len(),
{
    if s.len() > 0 {
        let rest = s.drop_last();
        assert(sorted_by_delay(rest)) by {
            assert forall|i: int, j: int| 0 <= i <= j < rest.len() implies #[trigger] rest[i].action_delay <= #[trigger] rest[j].action_delay by {
                assert(rest[i] == s[i] && rest[j] == s[j]);
            }
        }
        lemma_survivors_sorted(rest);
        lemma_survivors_members(rest);
        if s.last().hp > 0 {
            assert forall|i: int, j: int| 0 <= i <= j < survivors(s).len() implies #[trigger] survivors(s)[i].action_delay <= #[trigger] survivors(s)[j].action_delay by {
                if j == survivors(s).len() - 1 && i < j {
                    assert(survivors(s)[i] == survivors(rest)[i]);
                    assert(member_alive(rest, survivors(rest)[i]));
                    let k = choose|k: int| 0 <= k < rest.len() && rest[k] == survivors(rest)[i];
                    assert(s[k] == rest[k]);
                    assert(s[s.len() - 1] == s.last());
                    assert(survivors(s)[j] == s.last());
                } else if j < survivors(s).len() - 1 {
                    assert(survivors(s)[i] == survivors(rest)[i]);
                    assert(survivors(s)[j] == survivors(rest)[j]);
                }
            }
        }
    }
}

proof fn lemma_queue_position(cs: Seq<Piece>, delay: Aut)
    ensures
        0 <= queue_position(cs, delay) <= cs.len(),
        forall|j: int| 0 <= j < queue_position(cs, delay) ==> #[trigger] cs[j].action_delay <= delay,
        queue_position(cs, delay) < cs.len() ==> cs[queue_position(cs, delay)].action_delay > delay,
    decreases cs.len(),
{
    if cs.len() > 0 && cs[0].action_delay <= delay {
        lemma_queue_position(cs.skip(1), delay);
        assert forall|j: int| 0 <= j < queue_position(cs, delay) implies #[trigger] cs[j].action_delay <= delay by {
            if j > 0 {
                assert(cs[j] == cs.skip(1)[j - 1]);
            }
        }
    }
}

/// Taking a turn keeps the queue sorted by how long each piece still has to wait,
/// and leaves only pieces whose health is above 0 in it.
pub proof fn lemma_turn_keeps_queue_sorted(
    cs: Seq<Piece>,
    floor: Floor,
    after: Seq<Piece>,
    action: Action,
    delay: Option<Aut>,
    scripted: Option<Aut>,
)
    requires
        cs.len() > 0,
        sorted_by_delay(cs),
        acted(tick(cs, cs[0].action_delay), floor, after, action, delay, scripted),
        survivors(after).len() > 0,
    ensures
        ({
            let next = requeue(
                survivors(after),
                match delay {
                    Some(d) => d,
                    None => TURN,
                },
            );
            &&& sorted_by_delay(next)
            &&& forall|i: int| 0 <= i < next.len() ==> #[trigger] next[i].hp > 0
        }),
{
    let d0 = cs[0].action_delay;
    let ticked = tick(cs, d0);
    assert(sorted_by_delay(ticked)) by {
        assert forall|i: int, j: int| 0 <= i <= j < ticked.len() implies #[trigger] ticked[i].action_delay <= #[trigger] ticked[j].action_delay by {
            assert(cs[i].action_delay <= cs[j].action_delay);
        }
    }
    lemma_survivors_unchanged_by_move(ticked, floor, after, action, delay, scripted);
    assert(sorted_by_delay(after)) by {
        assert forall|i: int, j: int| 0 <= i <= j < after.len() implies #[trigger] after[i].action_delay <= #[trigger] after[j].action_delay by {
            assert(ticked[i].action_delay <= ticked[j].action_delay);
        }
    }
    let alive = survivors(after);
    lemma_survivors_sorted(after);
    lemma_survivors_members(after);
    let wait = match delay {
        Some(d) => d,
        None => TURN,
    };
    let rest = alive.skip(1);
    lemma_queue_position(rest, wait);
    let pos = queue_position(rest, wait);
    let c = Piece { action_delay: wait, ..alive[0] };
    let next = requeue(alive, wait);
    assert(next == rest.take(pos).push(c) + rest.skip(pos));
    assert forall|i: int| 0 <= i < next.len() implies #[trigger] next[i].hp > 0 by {
        if i < pos {
            assert(next[i] == rest[i]);
            assert(rest[i] == alive[i + 1]);
            assert(member_alive(after, alive[i + 1]));
        } else if i > pos {
            assert(next[i] == rest[i - 1]);
            assert(rest[i - 1] == alive[i]);
            assert(member_alive(after, alive[i]));
        } else {
            assert(next[i] == c);
            assert(member_alive(after, alive[0]));
        }
    }
    assert forall|i: int, j: int| 0 <= i <= j < next.len() implies #[trigger] next[i].action_delay <= #[trigger] next[j].action_delay by {
        if j < pos {
            assert(next[i] == rest[i] && next[j] == rest[j]);
            assert(rest[i] == alive[i + 1] && rest[j] == alive[j + 1]);
        } else if i > pos {
            assert(next[i] == rest[i - 1] && next[j] == rest[j - 1]);
            assert(rest[i - 1] == alive[i] && rest[j - 1] == alive[j]);
        } else if i < pos && j == pos {
            assert(next[i] == rest[i]);
        } else if i < pos && j > pos {
            assert(next[i] == rest[i] && next[j] == rest[j - 1]);
            assert(rest[i] == alive[i + 1] && rest[j - 1] == alive[j]);
            assert(rest[pos] == alive[pos + 1]);
            assert(rest[pos].action_delay > wait);
        } else if i == pos && j > pos {
            assert(next[j] == rest[j - 1]);
            assert(rest[j - 1] == alive[j]);
            assert(rest[pos] == alive[pos + 1]);
            assert(alive[pos + 1].action_delay <= alive[j].action_delay);
        }
    }
}

/// The number of whole rows of a vault.
pub open spec fn vault_height(v: Vault) -> int {
    (v.tiles@.len() as int) / (v.width as int)
}

/// The cell of vault `v`, placed with its top-left corner at `(x, y)`, that covers `(a, b)`.
pub open spec fn vault_cell(v: Vault, x: i32, y: i32, a: int, b: int) -> Option<Option<Tile>> {
    if x <= a < x + v.width && y <= b < y + vault_height(v) {
        Some(v.tiles@[(b - y) * v.width + (a - x)])
    } else {
        None
    }
}

/// Some tile of the vault would land on a tile of the floor that is not void.
pub open spec fn vault_collides(floor: Floor, v: Vault, x: i32, y: i32) -> bool {
    exists|a: i32, b: i32|
        #[trigger] vault_cell(v, x, y, a as int, b as int) matches Some(Some(_)) && floor.tile(a, b) is Some
}

/// The floor `after` is `before` with the tiles of the vault stamped onto it.
pub open spec fn vault_stamped(before: Floor, after: Floor, v: Vault, x: i32, y: i32) -> bool {
    forall|a: i32, b: i32|
        #[trigger] after.tile(a, b) == match vault_cell(v, x, y, a as int, b as int) {
            Some(Some(t)) => Some(t),
            _ => before.tile(a, b),
        }
}

/// The piece placed for a character of a vault.
pub open spec fn vault_piece(p: Piece, sheet: Sheet, x: int, y: int) -> bool {
    &&& p.sheet.same(sheet)
    &&& p.x == x
    &&& p.y == y
    &&& p.hp == sheet.stats.heart
    &&& p.sp == sheet.stats.soul
    &&& p.action_delay == 0
    &&& p.alliance == Alliance::Enemy
    &&& !p.player_controlled
}

/// The first `k` characters of the vault were placed, each in front of the ones before it.
pub open spec fn vault_characters_placed(
    before: Seq<Piece>,
    after: Seq<Piece>,
    v: Vault,
    x: i32,
    y: i32,
    sheets: Map<Seq<char>, Sheet>,
    k: int,
) -> bool {
    &&& after.len() == before.len() + k
    &&& after.skip(k) == before
    &&& forall|i: int|
        0 <= i < k ==> {
            let (xoff, yoff, id) = #[trigger] v.characters@[i];
            &&& sheets.contains_key(id@)
            &&& vault_piece(after[k - 1 - i], sheets[id@], x + xoff, y + yoff)
        }
}

impl Manager {
    /// Stamps vault `v` onto the floor with its top-left corner at `(x, y)` and places its characters,
    /// unless one of its tiles would land on a tile that is not void.
    ///
    /// # Errors
    ///
    /// Fails with the identifier of the first character whose sheet does not exist; the vault's tiles,
    /// and the characters before it, have been placed by then.
    pub fn try_apply_vault(&mut self, x: i32, y: i32, v: &Vault, sheets: &Resource<Sheet>) -> (res: Result<
        bool,
        resource::Error,
    >)
        requires
            old(self).well_formed(),
            sheets.well_formed(),
            v.width > 0,
            v.width <= i32::MAX,
            vault_height(*v) <= i32::MAX,
            x + v.width <= i32::MAX,
            y + vault_height(*v) <= i32::MAX,
            forall|i: int|
                0 <= i < v.characters@.len() ==> i32::MIN <= x + (#[trigger] v.characters@[i]).0 <= i32::MAX
                    && i32::MIN <= y + v.characters@[i].1 <= i32::MAX,
        ensures
            final(self).well_formed(),
            final(self).location == old(self).location,
            final(self).inventory == old(self).inventory,
            final(self).party == old(self).party,
            vault_collides(old(self).current_floor, *v, x, y) ==> {
                &&& res == Ok::<bool, resource::Error>(false)
                &&& final(self).current_floor == old(self).current_floor
                &&& final(self).characters@ == old(self).characters@
            },
            !vault_collides(old(self).current_floor, *v, x, y) ==> {
                &&& vault_stamped(old(self).current_floor, final(self).current_floor, *v, x, y)
                &&& match res {
                    Ok(placed) => placed && vault_characters_placed(
                        old(self).characters@,
                        final(self).characters@,
                        *v,
                        x,
                        y,
                        sheets.view(),
                        v.characters@.len() as int,
                    ),
                    Err(resource::Error::NotFound(id)) => exists|k: int|
                        0 <= k < v.characters@.len() && vault_characters_placed(
                            old(self).characters@,
                            final(self).characters@,
                            *v,
                            x,
                            y,
                            sheets.view(),
                            k,
                        ) && id@ == v.characters@[k].2@ && !sheets.view().contains_key(id@),
                }
            },
    {
        let width = v.width;
        let height = v.height();
        assert(v.tiles@.len() == v.tiles.len());
        proof {
            lemma_vault_index_bounds(*v);
        }
        // First make sure that the vault fits.
        let mut r: usize = 0;
        while r < height
            invariant
                0 <= r <= height,
                height == vault_height(*v),
                width == v.width,
                width > 0,
                v.width <= i32::MAX,
                vault_height(*v) <= i32::MAX,
                x + v.width <= i32::MAX,
                y + vault_height(*v) <= i32::MAX,
                self.well_formed(),
                forall|rr: int, cc: int| 0 <= rr < vault_height(*v) && 0 <= cc < v.width ==> #[trigger] (rr * v.width + cc) < v.tiles@.len(),
                self.current_floor == old(self).current_floor,
                self.characters == old(self).characters,
                self.location == old(self).location,
                self.inventory == old(self).inventory,
                self.party == old(self).party,
                v.tiles@.len() <= usize::MAX,
                forall|a: i32, b: i32|
                    y <= b < y + r ==> !(#[trigger] vault_cell(*v, x, y, a as int, b as int) matches Some(Some(_)) && self.current_floor.tile(a, b) is Some),
            decreases height - r,
        {
            let mut c: usize = 0;
            while c < width
                invariant
                    0 <= c <= width,
                    0 <= r < height,
                    height == vault_height(*v),
                    width == v.width,
                    v.width <= i32::MAX,
                    vault_height(*v) <= i32::MAX,
                    x + v.width <= i32::MAX,
                    y + vault_height(*v) <= i32::MAX,
                    self.well_formed(),
                    forall|rr: int, cc: int| 0 <= rr < vault_height(*v) && 0 <= cc < v.width ==> #[trigger] (rr * v.width + cc) < v.tiles@.len(),
                    self.current_floor == old(self).current_floor,
                    self.characters == old(self).characters,
                    self.location == old(self).location,
                    self.inventory == old(self).inventory,
                    self.party == old(self).party,
                    v.tiles@.len() <= usize::MAX,
                    forall|a: i32, b: i32|
                        (y <= b < y + r || (b == y + r && x <= a < x + c)) ==> !(#[trigger] vault_cell(*v, x, y, a as int, b as int) matches Some(Some(_)) && self.current_floor.tile(a, b) is Some),
                decreases width - c,
            {
                assert((r as int) * (v.width as int) + (c as int) < v.tiles@.len());
                assert((r as int) * (v.width as int) <= (r as int) * (v.width as int) + (c as int));
                let index = r * width + c;
                assert(index < v.tiles@.len());
                let tx = x + c as i32;
                let ty = y + r as i32;
                assert(vault_cell(*v, x, y, tx as int, ty as int) == Some(v.tiles@[index as int]));
                if v.tiles[index].is_some() && self.current_floor.get(tx, ty).is_some() {
                    assert(vault_collides(self.current_floor, *v, x, y));
                    return Ok(false);
                }
                c += 1;
            }
            r += 1;
        }
        assert(!vault_collides(self.current_floor, *v, x, y));
        let ghost floor_before = self.current_floor;
        // Then stamp its tiles.
        let mut r: usize = 0;
        while r < height
            invariant
                0 <= r <= height,
                height == vault_height(*v),
                width == v.width,
                width > 0,
                v.width <= i32::MAX,
                vault_height(*v) <= i32::MAX,
                x + v.width <= i32::MAX,
                y + vault_height(*v) <= i32::MAX,
                self.well_formed(),
                self.location == old(self).location,
                self.inventory == old(self).inventory,
                self.party == old(self).party,
                self.characters == old(self).characters,
                floor_before == old(self).current_floor,
                v.tiles@.len() <= usize::MAX,
                forall|rr: int, cc: int| 0 <= rr < vault_height(*v) && 0 <= cc < v.width ==> #[trigger] (rr * v.width + cc) < v.tiles@.len(),
                forall|a: i32, b: i32|
                    #[trigger] self.current_floor.tile(a, b) == if b < y + r {
                        match vault_cell(*v, x, y, a as int, b as int) {
                            Some(Some(t)) => Some(t),
                            _ => floor_before.tile(a, b),
                        }
                    } else {
                        floor_before.tile(a, b)
                    },
            decreases height - r,
        {
            let mut c: usize = 0;
            while c < width
                invariant
                    0 <= c <= width,
                    0 <= r < height,
                    height == vault_height(*v),
                    width == v.width,
                    v.width <= i32::MAX,
                    vault_height(*v) <= i32::MAX,
                    x + v.width <= i32::MAX,
                    y + vault_height(*v) <= i32::MAX,
                    self.well_formed(),
                    self.location == old(self).location,
                    self.inventory == old(self).inventory,
                    self.party == old(self).party,
                    self.characters == old(self).characters,
                    floor_before == old(self).current_floor,
                    v.tiles@.len() <= usize::MAX,
                    forall|rr: int, cc: int| 0 <= rr < vault_height(*v) && 0 <= cc < v.width ==> #[trigger] (rr * v.width + cc) < v.tiles@.len(),
                    forall|a: i32, b: i32|
                        #[trigger] self.current_floor.tile(a, b) == if b < y + r || (b == y + r && a < x + c) {
                            match vault_cell(*v, x, y, a as int, b as int) {
                                Some(Some(t)) => Some(t),
                                _ => floor_before.tile(a, b),
                            }
                        } else {
                            floor_before.tile(a, b)
                        },
                decreases width - c,
            {
                assert((r as int) * (v.width as int) + (c as int) < v.tiles@.len());
                assert((r as int) * (v.width as int) <= (r as int) * (v.width as int) + (c as int));
                let index = r * width + c;
                assert(index < v.tiles@.len());
                let tx = x + c as i32;
                let ty = y + r as i32;
                assert(vault_cell(*v, x, y, tx as int, ty as int) == Some(v.tiles@[index as int]));
                if let Some(tile) = v.tiles[index] {
                    *self.current_floor.get_mut(tx, ty) = Some(tile);
                }
                c += 1;
            }
            r += 1;
        }
        assert(vault_stamped(floor_before, self.current_floor, *v, x, y));
        // Finally place its characters.
        let ghost chars_before = self.characters@;
        let mut i: usize = 0;
        assert(self.characters@.skip(0) == chars_before);
        while i < v.characters.len()
            invariant
                0 <= i <= v.characters@.len(),
                sheets.well_formed(),
                self.well_formed(),
                self.location == old(self).location,
                self.inventory == old(self).inventory,
                self.party == old(self).party,
                vault_stamped(floor_before, self.current_floor, *v, x, y),
                floor_before == old(self).current_floor,
                !vault_collides(floor_before, *v, x, y),
                chars_before == old(self).characters@,
                forall|j: int|
                    0 <= j < v.characters@.len() ==> i32::MIN <= x + (#[trigger] v.characters@[j]).0 <= i32::MAX
                        && i32::MIN <= y + v.characters@[j].1 <= i32::MAX,
                vault_characters_placed(chars_before, self.characters@, *v, x, y, sheets.view(), i as int),
            decreases v.characters@.len() - i,
        {
            let (xoff, yoff, id) = &v.characters[i];
            let sheet = match sheets.get(id.as_str()) {
                Ok(sheet) => sheet,
                Err(e) => {
                    assert(v.characters@[i as int].2@ == id@);
                    assert(vault_characters_placed(chars_before, self.characters@, *v, x, y, sheets.view(), i as int));
                    return Err(e);
                },
            };
            let mut piece = Piece::new(sheet.clone());
            piece.x = x + *xoff;
            piece.y = y + *yoff;
            let ghost before = self.characters@;
            self.characters.insert(0, piece);
            assert(self.characters@.skip(i + 1) == before.skip(i as int));
            assert forall|j: int| 0 <= j < i + 1 implies {
                let (xo, yo, sid) = #[trigger] v.characters@[j];
                &&& sheets.view().contains_key(sid@)
                &&& vault_piece(self.characters@[i + 1 - 1 - j], sheets.view()[sid@], x + xo, y + yo)
            } by {
                if j < i {
                    assert(self.characters@[i + 1 - 1 - j] == before[i - 1 - j]);
                }
            }
            i += 1;
        }
        Ok(true)
    }
}

proof fn lemma_vault_index_bounds(v: Vault)
    requires
        v.width > 0,
    ensures
        forall|rr: int, cc: int| 0 <= rr < vault_height(v) && 0 <= cc < v.width ==> #[trigger] (rr * v.width + cc) < v.tiles@.len(),
{
    assert forall|rr: int, cc: int| 0 <= rr < vault_height(v) && 0 <= cc < v.width implies #[trigger] (rr * v.width + cc) < v.tiles@.len() by {
        let w = v.width as int;
        let n = v.tiles@.len() as int;
        assert(rr * w + cc < (rr + 1) * w) by (nonlinear_arith)
            requires 0 <= cc < w;
        assert((rr + 1) * w <= (n / w) * w) by (nonlinear_arith)
            requires 0 <= rr < n / w, w > 0;
        assert((n / w) * w <= n) by (nonlinear_arith)
            requires w > 0, n >= 0;
    }
}

/// The experience awarded for reaching a new floor.
pub const FLOOR_EXPERIENCE: u32 = 40;

/// The pieces of `cs` that belong to the party (the friendly ones), in order.
pub open spec fn party_members(cs: Seq<Piece>) -> Seq<Piece>
    decreases cs.len(),
{
    if cs.len() == 0 {
        cs
    } else if cs.last().alliance == Alliance::Friendly {
        party_members(cs.drop_last()).push(cs.last())
    } else {
        party_members(cs.drop_last())
    }
}

/// A party member after reaching a new floor: back at the origin, with the floor's experience
/// awarded and a level gained for every 100 experience.
pub open spec fn arrived(p: Piece) -> Piece {
    let total = p.sheet.experience + FLOOR_EXPERIENCE;
    let level = p.sheet.level + total / 100;
    Piece {
        x: 0,
        y: 0,
        sheet: Sheet {
            experience: (total % 100) as u32,
            level: if level > u32::MAX { u32::MAX } else { level as u32 },
            ..p.sheet
        },
        ..p
    }
}

/// `level` raised by `n`, up to `u32::MAX`.
pub open spec fn raised(level: u32, n: int) -> u32 {
    if level + n > u32::MAX { u32::MAX } else { (level + n) as u32 }
}

/// The levels that party member `p`, at place `i` of the party, passes through on reaching a new
/// floor, one for each level gained.
pub open spec fn levels_gained(i: int, p: Piece) -> Seq<(usize, u32)> {
    Seq::new(
        ((p.sheet.experience + FLOOR_EXPERIENCE) / 100) as nat,
        |j: int| (i as usize, raised(p.sheet.level, j + 1)),
    )
}

/// The levels that the members of `party` pass through on reaching a new floor, in order.
pub open spec fn level_ups(party: Seq<Piece>) -> Seq<(usize, u32)>
    decreases party.len(),
{
    if party.len() == 0 {
        Seq::empty()
    } else {
        level_ups(party.drop_last()) + levels_gained(party.len() - 1, party.last())
    }
}

impl Manager {
    /// Moves the party to a new, empty floor: everything that is not part of the party is left behind,
    /// and every party member is awarded experience.
    ///
    /// Returns each level gained, in order: the member's place in the queue, and the level reached.
    pub fn new_floor(&mut self) -> (res: Vec<(usize, u32)>)
        requires
            old(self).location.floor < usize::MAX,
            forall|i: int|
                0 <= i < old(self).characters@.len() ==> #[trigger] old(self).characters@[i].sheet.experience
                    <= u32::MAX - FLOOR_EXPERIENCE,
        ensures
            final(self).well_formed(),
            final(self).location.floor == old(self).location.floor + 1,
            final(self).location.level == old(self).location.level,
            final(self).inventory == old(self).inventory,
            final(self).party == old(self).party,
            forall|x: i32, y: i32| #[trigger] final(self).current_floor.tile(x, y) == None::<Tile>,
            final(self).characters@.len() == party_members(old(self).characters@).len(),
            forall|i: int|
                0 <= i < final(self).characters@.len() ==> #[trigger] final(self).characters@[i]
                    == arrived(party_members(old(self).characters@)[i]),
            res@ == level_ups(party_members(old(self).characters@)),
    {
        self.location.floor = self.location.floor + 1;
        self.current_floor = Floor::new();
        let ghost initial = self.characters@;
        let mut all: Vec<Piece> = Vec::new();
        std::mem::swap(&mut all, &mut self.characters);
        let mut kept: Vec<Piece> = Vec::new();
        let mut levels: Vec<(usize, u32)> = Vec::new();
        let mut k: usize = 0;
        assert(initial.take(0) == Seq::<Piece>::empty());
        assert(initial.len() == all@.len());
        assert(all@.len() == all.len());
        while all.len() > 0
            invariant
                k + all@.len() == initial.len(),
                initial.len() <= usize::MAX,
                all@ == initial.skip(k as int),
                forall|i: int|
                    0 <= i < initial.len() ==> #[trigger] initial[i].sheet.experience <= u32::MAX
                        - FLOOR_EXPERIENCE,
                kept@.len() == party_members(initial.take(k as int)).len(),
                forall|i: int|
                    0 <= i < kept@.len() ==> #[trigger] kept@[i] == arrived(
                        party_members(initial.take(k as int))[i],
                    ),
                levels@ == level_ups(party_members(initial.take(k as int))),
            decreases all@.len(),
        {
            let mut piece = all.remove(0);
            assert(initial.take(k + 1).drop_last() == initial.take(k as int));
            assert(initial.take(k + 1).last() == piece);
            assert(initial.skip(k as int).skip(1) == initial.skip(k + 1));
            if piece.alliance == Alliance::Friendly {
                let ghost member = piece;
                piece.x = 0;
                piece.y = 0;
                piece.sheet.experience = piece.sheet.experience + FLOOR_EXPERIENCE;
                let ghost start_level = piece.sheet.level;
                let ghost total = piece.sheet.experience;
                let mut gained: u32 = 0;
                let ghost reset = piece;
                let ghost before_levels = levels@;
                let place = kept.len();
                while piece.sheet.experience >= 100
                    invariant
                        piece == (Piece {
                            sheet: Sheet {
                                experience: piece.sheet.experience,
                                level: piece.sheet.level,
                                ..reset.sheet
                            },
                            ..reset
                        }),
                        piece.sheet.experience == total - 100 * gained,
                        0 <= piece.sheet.experience <= total,
                        gained <= total / 100,
                        piece.sheet.level == raised(start_level, gained as int),
                        place == kept@.len(),
                        levels@ == before_levels + Seq::new(
                            gained as nat,
                            |j: int| (place, raised(start_level, j + 1)),
                        ),
                    decreases piece.sheet.experience,
                {
                    piece.sheet.experience = piece.sheet.experience - 100;
                    piece.sheet.level = piece.sheet.level.saturating_add(1);
                    gained = gained + 1;
                    levels.push((place, piece.sheet.level));
                    assert(levels@ == before_levels + Seq::new(
                        gained as nat,
                        |j: int| (place, raised(start_level, j + 1)),
                    ));
                }
                assert(gained == total / 100 && piece.sheet.experience == total % 100) by (nonlinear_arith)
                    requires
                        piece.sheet.experience == total - 100 * gained,
                        0 <= piece.sheet.experience < 100,
                ;
                assert(piece == arrived(member));
                let ghost before_kept = kept@;
                kept.push(piece);
                proof {
                    let party = party_members(initial.take(k + 1));
                    assert(party == party_members(initial.take(k as int)).push(member));
                    assert(party.drop_last() == party_members(initial.take(k as int)));
                    assert(levels_gained(party.len() - 1, party.last()) == Seq::new(
                        gained as nat,
                        |j: int| (place, raised(start_level, j + 1)),
                    ));
                }
            } else {
                assert(party_members(initial.take(k + 1)) == party_members(initial.take(k as int)));
            }
            k += 1;
        }
        assert(initial.take(k as int) == initial);
        self.characters = kept;
        levels
    }
}

} // verus!
