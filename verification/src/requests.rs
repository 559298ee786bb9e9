//! What scripts may ask of the world while they run: the pieces, or those near a position,
//! and the tiles of the floor.

use crate::consider::Consider;
use crate::floor::Tile;
use crate::world::{in_search_bounds_of_move, survivors, turn_taken, Action, Manager};
use crate::{Aut, TURN};
use vstd::prelude::*;

verus! {

/// Which pieces a script asks for.
#[derive(Clone, Copy, Debug, PartialEq, Eq, Structural)]
pub enum LuaCharacterQuery {
    /// Those no more than `range` steps (counting diagonal steps as one) from `(x, y)`.
    Within { x: i32, y: i32, range: u32 },
}

/// A request for extra information from a script.
#[derive(Clone, Copy, Debug)]
pub enum LuaRequest {
    Characters { query: Option<LuaCharacterQuery> },
    Tile { x: i32, y: i32 },
}

/// The answer to a request.
#[derive(Clone, Debug)]
pub enum LuaAnswer {
    /// The pieces asked for, by their place in the queue, in its order.
    Characters(Vec<usize>),
    Tile(Option<Tile>),
}

/// The distance between two positions, counting diagonal steps as one.
pub open spec fn steps_between(x1: int, y1: int, x2: int, y2: int) -> int {
    let dx = if x1 >= x2 { x1 - x2 } else { x2 - x1 };
    let dy = if y1 >= y2 { y1 - y2 } else { y2 - y1 };
    if dx >= dy { dx } else { dy }
}

/// The places of the pieces of `cs` from `from` on that `query` asks for.
pub open spec fn matching(cs: Seq<crate::character::Piece>, query: Option<LuaCharacterQuery>, from: int) -> Seq<usize>
    decreases cs.len() - from,
{
    if from < 0 || from >= cs.len() {
        Seq::empty()
    } else {
        let wanted = match query {
            None => true,
            Some(LuaCharacterQuery::Within { x, y, range }) => steps_between(
                cs[from].x as int,
                cs[from].y as int,
                x as int,
                y as int,
            ) <= range,
        };
        (if wanted { seq![from as usize] } else { Seq::empty() }) + matching(cs, query, from + 1)
    }
}

/// The places that `matching` lists from `from` on are those, from `from` on, whose pieces the
/// query wants, in increasing order.
proof fn lemma_matching_lists(cs: Seq<crate::character::Piece>, query: Option<LuaCharacterQuery>, from: int)
    requires
        0 <= from,
        cs.len() <= usize::MAX,
    ensures
        forall|j: int| 0 <= j < matching(cs, query, from).len() ==> from <= #[trigger] matching(cs, query, from)[j] < cs.len(),
        forall|j: int, k: int|
            0 <= j < k < matching(cs, query, from).len() ==> #[trigger] matching(cs, query, from)[j]
                < #[trigger] matching(cs, query, from)[k],
        forall|i: int|
            #![trigger cs[i]]
            from <= i < cs.len() ==> (matching(cs, query, from).contains(i as usize) <==> match query {
                None => true,
                Some(LuaCharacterQuery::Within { x, y, range }) => steps_between(
                    cs[i].x as int,
                    cs[i].y as int,
                    x as int,
                    y as int,
                ) <= range,
            }),
    decreases cs.len() - from,
{
    if from < cs.len() {
        lemma_matching_lists(cs, query, from + 1);
        let m = matching(cs, query, from);
        let rest = matching(cs, query, from + 1);
        let wanted = match query {
            None => true,
            Some(LuaCharacterQuery::Within { x, y, range }) => steps_between(
                cs[from].x as int,
                cs[from].y as int,
                x as int,
                y as int,
            ) <= range,
        };
        let head: Seq<usize> = if wanted { seq![from as usize] } else { Seq::empty() };
        assert(m == head + rest);
        assert forall|j: int| 0 <= j < m.len() implies from <= #[trigger] m[j] < cs.len() by {
            if j >= head.len() {
                assert(m[j] == rest[j - head.len()]);
            }
        }
        assert forall|j: int, k: int| 0 <= j < k < m.len() implies #[trigger] m[j] < #[trigger] m[k] by {
            if j >= head.len() {
                assert(m[j] == rest[j - head.len()]);
                assert(m[k] == rest[k - head.len()]);
            } else {
                assert(m[k] == rest[k - head.len()]);
            }
        }
        assert forall|i: int| #![trigger cs[i]] from <= i < cs.len() implies (m.contains(i as usize) <==> match query {
            None => true,
            Some(LuaCharacterQuery::Within { x, y, range }) => steps_between(
                cs[i].x as int,
                cs[i].y as int,
                x as int,
                y as int,
            ) <= range,
        }) by {
            if m.contains(i as usize) {
                let j = choose|j: int| 0 <= j < m.len() && m[j] == i as usize;
                if j >= head.len() {
                    assert(m[j] == rest[j - head.len()]);
                    assert(rest.contains(i as usize));
                }
            }
            if i == from {
                if wanted {
                    assert(m[0] == from as usize);
                } else {
                    assert(!rest.contains(i as usize)) by {
                        if rest.contains(i as usize) {
                            let j = choose|j: int| 0 <= j < rest.len() && rest[j] == i as usize;
                            assert(from + 1 <= rest[j]);
                        }
                    }
                }
            } else {
                if rest.contains(i as usize) {
                    let j = choose|j: int| 0 <= j < rest.len() && rest[j] == i as usize;
                    assert(m[j + head.len()] == rest[j]);
                }
            }
        }
    }
}

/// A query for the pieces within `range` of `(x, y)` lists, in queue order, exactly the pieces
/// that are no more than `range` away from `(x, y)` both across and down.
pub proof fn lemma_within_lists_the_near(cs: Seq<crate::character::Piece>, x: i32, y: i32, range: u32)
    requires
        cs.len() <= usize::MAX,
    ensures
        ({
            let listed = matching(cs, Some(LuaCharacterQuery::Within { x, y, range }), 0);
            &&& forall|j: int| 0 <= j < listed.len() ==> #[trigger] listed[j] < cs.len()
            &&& forall|j: int, k: int| 0 <= j < k < listed.len() ==> #[trigger] listed[j] < #[trigger] listed[k]
            &&& forall|i: int|
                0 <= i < cs.len() ==> (#[trigger] listed.contains(i as usize) <==> (-range <= cs[i].x - x <= range
                    && -range <= cs[i].y - y <= range))
        }),
{
    let q = Some(LuaCharacterQuery::Within { x, y, range });
    lemma_matching_lists(cs, q, 0);
    let listed = matching(cs, q, 0);
    assert forall|i: int| 0 <= i < cs.len() implies (#[trigger] listed.contains(i as usize) <==> (-range <= cs[i].x
        - x <= range && -range <= cs[i].y - y <= range)) by {
        assert(listed.contains(i as usize) <==> steps_between(cs[i].x as int, cs[i].y as int, x as int, y as int)
            <= range);
    }
}

/// Whether the offsets between the pieces and the position of a query fit an `i32`.
pub open spec fn query_fits(cs: Seq<crate::character::Piece>, query: Option<LuaCharacterQuery>) -> bool {
    match query {
        None => true,
        Some(LuaCharacterQuery::Within { x, y, .. }) => forall|i: int|
            0 <= i < cs.len() ==> i32::MIN <= (#[trigger] cs[i]).x - x <= i32::MAX && i32::MIN <= cs[i].y - y
                <= i32::MAX,
    }
}

/// The action a consideration settles on; waiting a turn when there is none.
pub fn considered_action(consider: Option<Consider>) -> (res: Action)
    ensures
        res == match consider {
            Some(c) => c.action,
            None => Action::Wait(TURN),
        },
{
    match consider {
        Some(c) => c.action,
        None => Action::Wait(TURN),
    }
}

/// The action a consideration settles on; waiting a turn when there is none.
pub open spec fn considered(consider: Option<Consider>) -> Action {
    match consider {
        Some(c) => c.action,
        None => Action::Wait(TURN),
    }
}

impl Manager {
    /// One tick of the world: a piece that acts on its own performs the action that its
    /// consideration `consider` settles on (taking `scripted` for an attack or a spell); a piece
    /// of the player's waits for the player. Whether a piece acted.
    pub fn tick(&mut self, consider: Option<Consider>, scripted: Option<Aut>) -> (res: bool)
        requires
            old(self).well_formed(),
            old(self).characters@.len() > 0,
            survivors(old(self).characters@).len() > 0,
            in_search_bounds_of_move(old(self).characters@, considered(consider)),
        ensures
            res == !old(self).characters@[0].player_controlled,
            res ==> final(self).well_formed() && turn_taken(*old(self), *final(self), considered(consider), scripted),
            !res ==> *final(self) == *old(self),
    {
        if self.characters[0].player_controlled {
            return false;
        }
        let action = considered_action(consider);
        self.perform_action(&action, scripted);
        true
    }

    /// Whether the next piece acts on its own, rather than waiting for the player.
    pub fn acts_alone(&self) -> (res: bool)
        requires
            self.characters@.len() > 0,
        ensures
            res == !self.characters@[0].player_controlled,
    {
        !self.characters[0].player_controlled
    }

    /// Answers a request of a script.
    pub fn answer(&self, request: LuaRequest) -> (res: LuaAnswer)
        requires
            self.well_formed(),
            request matches LuaRequest::Characters { query } ==> query_fits(self.characters@, query),
        ensures
            match request {
                LuaRequest::Characters { query } => res matches LuaAnswer::Characters(v) && v@ == matching(
                    self.characters@,
                    query,
                    0,
                ),
                LuaRequest::Tile { x, y } => res matches LuaAnswer::Tile(t) && t == self.current_floor.tile(x, y),
            },
    {
        match request {
            LuaRequest::Characters { query } => {
                let n = self.characters.len();
                let mut found: Vec<usize> = Vec::new();
                let mut i: usize = 0;
                while i < n
                    invariant
                        0 <= i <= n,
                        n == self.characters@.len(),
                        query_fits(self.characters@, query),
                        found@ + matching(self.characters@, query, i as int) == matching(self.characters@, query, 0),
                    decreases n - i,
                {
                    let c = &self.characters[i];
                    assert(query matches Some(LuaCharacterQuery::Within { x, y, .. }) ==> i32::MIN <= c.x - x <= i32::MAX
                        && i32::MIN <= c.y - y <= i32::MAX);
                    let wanted = match query {
                        None => true,
                        Some(LuaCharacterQuery::Within { x, y, range }) => {
                            let ox = c.x - x;
                            let oy = c.y - y;
                            let dx: i64 = if ox >= 0 { ox as i64 } else { -(ox as i64) };
                            let dy: i64 = if oy >= 0 { oy as i64 } else { -(oy as i64) };
                            let d = if dx >= dy { dx } else { dy };
                            d <= range as i64
                        },
                    };
                    let ghost before = found@;
                    if wanted {
                        found.push(i);
                    }
                    proof {
                        assert(before + matching(self.characters@, query, i as int) == found@ + matching(
                            self.characters@,
                            query,
                            i + 1,
                        ));
                    }
                    i += 1;
                }
                assert(found@ + Seq::<usize>::empty() == found@);
                LuaAnswer::Characters(found)
            },
            LuaRequest::Tile { x, y } => LuaAnswer::Tile(self.current_floor.get(x, y)),
        }
    }
}

} // verus!
