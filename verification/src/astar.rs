//! Distance maps ("dijkstra maps") for pathfinding over the board.
//!
//! A map starts from a set of targets at distance 0 and is explored outwards,
//! asking a caller-provided function how far each neighbouring tile is.
//! A piece then walks towards the targets by stepping to its closest neighbour.

use crate::floor::ChunkMap;
use crate::{ord_all, ord_offset, OrdDir};
use vstd::arithmetic::div_mod::lemma_fundamental_div_mod_converse;
use vstd::prelude::*;
use vstd::set_lib::*;

verus! {

/// Representation of distance from a target.
pub type Distance = u16;

/// The distance of a tile that has not been reached yet.
pub const UNEXPLORED: u16 = 65535;

/// The distance of a tile that can never be entered.
pub const IMPASSABLE: u16 = 65534;

/// How far from the origin a search may start, in each axis: `i32::MAX` less 65536.
///
/// A distance stays below `IMPASSABLE`, so a search walks fewer than 65534 steps away from
/// the tiles it starts from, and every coordinate it reaches still fits in an `i32`.
pub const SEARCH_BOUND: i32 = 2147418111;

pub open spec fn in_search_bounds(x: int, y: int) -> bool {
    -SEARCH_BOUND <= x <= SEARCH_BOUND && -SEARCH_BOUND <= y <= SEARCH_BOUND
}

/// `(x, y)` lies within `k` steps of the search bounds.
pub open spec fn in_reach(x: int, y: int, k: int) -> bool {
    -SEARCH_BOUND - k <= x <= SEARCH_BOUND + k && -SEARCH_BOUND - k <= y <= SEARCH_BOUND + k
}

/// The key by which the frontier is ordered: the next tile to visit is one whose key is smallest.
pub open spec fn frontier_key(p: (i32, i32), x: i32, y: i32) -> int {
    p.0 - x + p.1 - y
}

/// The neighbour of `(x, y)` in direction `d`.
pub open spec fn neighbour(x: i32, y: i32, d: OrdDir) -> (i32, i32) {
    ((x + ord_offset(d).0) as i32, (y + ord_offset(d).1) as i32)
}

// Every (x, y, v) with v below the distance of (x, y) is a distinct integer below 2^80;
// each improvement of a distance removes at least one of them, so exploration ends.
spec fn potential_bound() -> int {
    0x1_0000_0000_0000_0000_0000
}

spec fn cell_code(a: i32, b: i32, v: int) -> int {
    ((a + 0x8000_0000) * 0x1_0000_0000 + (b + 0x8000_0000)) * 0x1_0000 + v
}

spec fn code_a(c: int) -> i32 {
    (c / 0x1_0000 / 0x1_0000_0000 - 0x8000_0000) as i32
}

spec fn code_b(c: int) -> i32 {
    (c / 0x1_0000 % 0x1_0000_0000 - 0x8000_0000) as i32
}

spec fn potential(m: ChunkMap<u16>) -> Set<int> {
    Set::new(|c: int| 0 <= c < potential_bound() && c % 0x1_0000 < m.cell(code_a(c), code_b(c)))
}

proof fn lemma_cell_code(a: i32, b: i32, v: int)
    requires
        0 <= v < 0x1_0000,
    ensures
        0 <= cell_code(a, b, v) < potential_bound(),
        cell_code(a, b, v) % 0x1_0000 == v,
        code_a(cell_code(a, b, v)) == a,
        code_b(cell_code(a, b, v)) == b,
{
    let q = (a + 0x8000_0000) * 0x1_0000_0000 + (b + 0x8000_0000);
    assert(0 <= q < 0x1_0000_0000_0000_0000) by (nonlinear_arith)
        requires
            q == (a + 0x8000_0000) * 0x1_0000_0000 + (b + 0x8000_0000),
            0 <= a + 0x8000_0000 < 0x1_0000_0000,
            0 <= b + 0x8000_0000 < 0x1_0000_0000,
    ;
    assert(0 <= q * 0x1_0000 + v < potential_bound()) by (nonlinear_arith)
        requires
            0 <= q < 0x1_0000_0000_0000_0000,
            0 <= v < 0x1_0000,
    ;
    lemma_fundamental_div_mod_converse(cell_code(a, b, v), 0x1_0000, q, v);
    lemma_fundamental_div_mod_converse(q, 0x1_0000_0000, a + 0x8000_0000, b + 0x8000_0000);
}

proof fn lemma_potential_finite(m: ChunkMap<u16>)
    ensures
        potential(m).finite(),
        potential(m).subset_of(set_int_range(0, potential_bound())),
{
    lemma_int_range(0, potential_bound());
    lemma_set_subset_finite(set_int_range(0, potential_bound()), potential(m));
}

/// Lowering the cell at `(a, b)` and nothing else shrinks the potential.
proof fn lemma_potential_shrinks(m1: ChunkMap<u16>, m2: ChunkMap<u16>, a: i32, b: i32)
    requires
        m2.cell(a, b) < m1.cell(a, b),
        forall|p: i32, q: i32| #[trigger] m2.cell(p, q) <= m1.cell(p, q),
    ensures
        potential(m2).len() < potential(m1).len(),
{
    lemma_potential_finite(m1);
    lemma_potential_finite(m2);
    let e = cell_code(a, b, m1.cell(a, b) - 1);
    lemma_cell_code(a, b, m1.cell(a, b) - 1);
    assert(potential(m1).contains(e));
    assert(potential(m2).subset_of(potential(m1).remove(e)));
    lemma_len_subset(potential(m2), potential(m1).remove(e));
}

/// A distance map over the board.
#[derive(Clone, Debug)]
pub struct Floor {
    map: ChunkMap<u16>,
    frontier: Vec<(i32, i32)>,
}

impl Floor {
    pub closed spec fn well_formed(&self) -> bool {
        &&& self.map.well_formed()
        &&& self.map.fill_value() == UNEXPLORED
    }

    /// Every tile of the frontier has been reached and is passable.
    pub open spec fn frontier_explored(&self) -> bool {
        forall|i: int|
            0 <= i < self.frontier().len() ==> #[trigger] self.distance(
                self.frontier()[i].0,
                self.frontier()[i].1,
            ) < IMPASSABLE
    }

    /// The distance of `(x, y)` from the targets.
    pub closed spec fn distance(&self, x: i32, y: i32) -> u16 {
        self.map.cell(x, y)
    }

    /// The tiles whose neighbours still have to be visited.
    pub closed spec fn frontier(&self) -> Seq<(i32, i32)> {
        self.frontier@
    }

    /// Every tile of the frontier lies within the search bounds.
    pub open spec fn frontier_in_bounds(&self) -> bool {
        forall|i: int|
            0 <= i < self.frontier().len() ==> in_search_bounds(
                #[trigger] self.frontier()[i].0 as int,
                self.frontier()[i].1 as int,
            )
    }

    /// Since `start`, every tile whose distance changed to a passable one lies within that many
    /// steps of the search bounds, and every tile of the frontier lies within the bounds or has
    /// changed.
    pub open spec fn grown_from(&self, start: Floor) -> bool {
        &&& forall|a: i32, b: i32|
            #[trigger] self.distance(a, b) != start.distance(a, b) && self.distance(a, b) < IMPASSABLE
                ==> in_reach(a as int, b as int, self.distance(a, b) as int)
        &&& forall|i: int|
            0 <= i < self.frontier().len() ==> in_search_bounds(
                #[trigger] self.frontier()[i].0 as int,
                self.frontier()[i].1 as int,
            ) || self.distance(self.frontier()[i].0, self.frontier()[i].1) != start.distance(
                self.frontier()[i].0,
                self.frontier()[i].1,
            )
    }

    /// A map where nothing has been explored.
    pub fn new() -> (res: Floor)
        ensures
            res.well_formed(),
            res.frontier() == Seq::<(i32, i32)>::empty(),
            forall|x: i32, y: i32| #[trigger] res.distance(x, y) == UNEXPLORED,
    {
        Floor { map: ChunkMap::new(UNEXPLORED), frontier: Vec::new() }
    }

    pub fn get(&self, x: i32, y: i32) -> (res: Distance)
        requires
            self.well_formed(),
        ensures
            res == self.distance(x, y),
    {
        self.map.get(x, y)
    }

    /// A mutable reference to the distance of `(x, y)`.
    ///
    /// The map stays well formed as long as no tile of the frontier is made
    /// unexplored or impassable through it.
    pub fn get_mut(&mut self, x: i32, y: i32) -> (res: &mut Distance)
        requires
            old(self).well_formed(),
        ensures
            *res == old(self).distance(x, y),
            final(self).distance(x, y) == *final(res),
            forall|a: i32, b: i32|
                !(a == x && b == y) ==> #[trigger] final(self).distance(a, b) == old(
                    self,
                ).distance(a, b),
            final(self).frontier() == old(self).frontier(),
            final(self).well_formed(),
    {
        self.map.get_mut(x, y)
    }

    /// Sets the distance of `(x, y)`, and queues it for exploration unless it is impassable.
    fn explore_tile(&mut self, x: i32, y: i32, distance: Distance)
        requires
            old(self).well_formed(),
            old(self).frontier_explored(),
            distance < IMPASSABLE || (distance == IMPASSABLE && old(self).distance(x, y) == UNEXPLORED),
        ensures
            final(self).well_formed(),
            final(self).frontier_explored(),
            final(self).distance(x, y) == distance,
            forall|a: i32, b: i32|
                !(a == x && b == y) ==> #[trigger] final(self).distance(a, b) == old(
                    self,
                ).distance(a, b),
            final(self).frontier() == if distance != IMPASSABLE {
                old(self).frontier().push((x, y))
            } else {
                old(self).frontier()
            },
    {
        let ghost before = *self;
        *self.map.get_mut(x, y) = distance;
        if distance != IMPASSABLE {
            self.frontier.push((x, y));
        }
        assert forall|i: int| 0 <= i < self.frontier().len() implies #[trigger] self.distance(
            self.frontier()[i].0,
            self.frontier()[i].1,
        ) < IMPASSABLE by {
            if i < before.frontier@.len() {
                assert(self.frontier@[i] == before.frontier@[i]);
                assert(before.distance(before.frontier()[i].0, before.frontier()[i].1) < IMPASSABLE);
            }
        }
    }

    /// A map where every target is at distance 0, ready to be explored from the targets.
    pub fn target(targets: &[(i32, i32)]) -> (res: Floor)
        ensures
            res.well_formed(),
            res.frontier_explored(),
            res.frontier() == targets@,
            forall|x: i32, y: i32| #[trigger]
                res.distance(x, y) == if targets@.contains((x, y)) {
                    0u16
                } else {
                    UNEXPLORED
                },
    {
        let mut map = Floor::new();
        let mut i: usize = 0;
        while i < targets.len()
            invariant
                0 <= i <= targets@.len(),
                map.well_formed(),
                map.frontier_explored(),
                map.frontier() == targets@.take(i as int),
                forall|x: i32, y: i32| #[trigger]
                    map.distance(x, y) == if targets@.take(i as int).contains((x, y)) {
                        0u16
                    } else {
                        UNEXPLORED
                    },
            decreases targets@.len() - i,
        {
            let (x, y) = targets[i];
            let ghost before = map;
            map.explore_tile(x, y, 0);
            assert(targets@.take(i + 1) == targets@.take(i as int).push((x, y)));
            assert forall|a: i32, b: i32| #[trigger]
                map.distance(a, b) == if targets@.take(i + 1).contains((a, b)) {
                    0u16
                } else {
                    UNEXPLORED
                } by {
                lemma_contains_push(targets@.take(i as int), (x, y), (a, b));
            }
            i += 1;
        }
        assert(targets@.take(targets@.len() as int) == targets@);
        map
    }

    /// The index of a frontier tile that is to be visited next: one with the smallest key.
    fn nearest_index(&self, x: i32, y: i32) -> (res: usize)
        requires
            self.frontier@.len() > 0,
        ensures
            res < self.frontier@.len(),
            forall|i: int|
                0 <= i < self.frontier@.len() ==> frontier_key(self.frontier@[res as int], x, y)
                    <= #[trigger] frontier_key(self.frontier@[i], x, y),
    {
        let mut best: usize = 0;
        let mut i: usize = 1;
        let mut best_key: i64 = self.frontier[0].0 as i64 - x as i64 + self.frontier[0].1 as i64 - y as i64;
        while i < self.frontier.len()
            invariant
                1 <= i <= self.frontier@.len(),
                best < self.frontier@.len(),
                best_key == frontier_key(self.frontier@[best as int], x, y),
                forall|j: int|
                    0 <= j < i ==> best_key <= #[trigger] frontier_key(self.frontier@[j], x, y),
            decreases self.frontier@.len() - i,
        {
            let key = self.frontier[i].0 as i64 - x as i64 + self.frontier[i].1 as i64 - y as i64;
            if key < best_key {
                best = i;
                best_key = key;
            }
            i += 1;
        }
        best
    }

    /// Explores the map outwards from its frontier until `(x, y)` is reached or nothing is left to explore.
    ///
    /// `evaluate_tile(x, y, base)` gives the distance of `(x, y)` when it is entered from a neighbour
    /// at distance `base`. A tile only ever moves closer, and tiles that are impassable are never entered.
    #[verifier::rlimit(60)]
    #[verifier::spinoff_prover]
    pub fn explore<F: Fn(i32, i32, Distance) -> Distance>(
        &mut self,
        x: i32,
        y: i32,
        evaluate_tile: F,
    )
        requires
            old(self).well_formed(),
            old(self).frontier_explored(),
            old(self).frontier_in_bounds(),
            forall|a: i32, b: i32, d: u16| d < IMPASSABLE ==> call_requires(evaluate_tile, (a, b, d)),
            forall|a: i32, b: i32, d: u16, r: u16|
                d < IMPASSABLE && call_ensures(evaluate_tile, (a, b, d), r) ==> r > d,
        ensures
            final(self).well_formed(),
            final(self).frontier_explored(),
            final(self).grown_from(*old(self)),
            forall|a: i32, b: i32| #[trigger] final(self).distance(a, b) <= old(self).distance(a, b),
            forall|a: i32, b: i32|
                #[trigger] final(self).distance(a, b) != old(self).distance(a, b)
                    ==> entered_from_neighbour(*final(self), evaluate_tile, a, b),
            forall|a: i32, b: i32|
                old(self).distance(a, b) == IMPASSABLE ==> #[trigger] final(self).distance(a, b) == IMPASSABLE,
            (final(self).frontier().len() == 0 && (settled(*old(self), evaluate_tile) ==> settled(
                *final(self),
                evaluate_tile,
            ))) || reached(*final(self), evaluate_tile, x, y),
    {
        let ghost start = *self;
        let ghost s0 = settled(start, evaluate_tile);
        while self.frontier.len() > 0
            invariant
                start == *old(self),
                s0 == settled(start, evaluate_tile),
                s0 ==> settled(*self, evaluate_tile),
                forall|a: i32, b: i32|
                    start.distance(a, b) == IMPASSABLE ==> #[trigger] self.distance(a, b) == IMPASSABLE,
                self.well_formed(),
                self.frontier_explored(),
                self.grown_from(start),
                start.frontier_in_bounds(),
                forall|a: i32, b: i32, d: u16| d < IMPASSABLE ==> call_requires(evaluate_tile, (a, b, d)),
                forall|a: i32, b: i32, d: u16, r: u16|
                    d < IMPASSABLE && call_ensures(evaluate_tile, (a, b, d), r) ==> r > d,
                forall|a: i32, b: i32| #[trigger] self.distance(a, b) <= start.distance(a, b),
                forall|a: i32, b: i32|
                    #[trigger] self.distance(a, b) != start.distance(a, b)
                        ==> entered_from_neighbour(*self, evaluate_tile, a, b),
            decreases potential(self.map).len(), self.frontier@.len(),
        {
            let ghost round_start = *self;
            let index = self.nearest_index(x, y);
            let next = self.frontier.remove(index);
            assert(self.map == round_start.map);
            assert(next == round_start.frontier()[index as int]);
            assert(round_start.distance(round_start.frontier()[index as int].0, round_start.frontier()[index as int].1)
                < IMPASSABLE);
            assert(round_start.distance(next.0, next.1) < IMPASSABLE);
            assert forall|a: i32, b: i32| #[trigger] self.distance(a, b) == round_start.distance(a, b) by {}
            assert(self.frontier_explored()) by {
                assert forall|i: int| 0 <= i < self.frontier().len() implies #[trigger] self.distance(
                    self.frontier()[i].0,
                    self.frontier()[i].1,
                ) < IMPASSABLE by {
                    if i < index {
                        assert(self.frontier@[i] == round_start.frontier@[i]);
                        assert(round_start.distance(round_start.frontier()[i].0, round_start.frontier()[i].1)
                            < IMPASSABLE);
                    } else {
                        assert(self.frontier@[i] == round_start.frontier@[i + 1]);
                        assert(round_start.distance(round_start.frontier()[i + 1].0, round_start.frontier()[i + 1].1)
                            < IMPASSABLE);
                    }
                }
            }
            assert(in_search_bounds(next.0 as int, next.1 as int) || round_start.distance(next.0, next.1)
                != start.distance(next.0, next.1));
            assert(self.grown_from(start)) by {
                assert forall|i: int| 0 <= i < self.frontier().len() implies in_search_bounds(
                    #[trigger] self.frontier()[i].0 as int,
                    self.frontier()[i].1 as int,
                ) || self.distance(self.frontier()[i].0, self.frontier()[i].1) != start.distance(
                    self.frontier()[i].0,
                    self.frontier()[i].1,
                ) by {
                    if i < index {
                        assert(self.frontier@[i] == round_start.frontier@[i]);
                    } else {
                        assert(self.frontier@[i] == round_start.frontier@[i + 1]);
                    }
                }
            }
            assert forall|a: i32, b: i32|
                #[trigger] self.distance(a, b) != start.distance(a, b)
                    implies entered_from_neighbour(*self, evaluate_tile, a, b) by {
                let (w, d) = choose|w: OrdDir, d: u16| entered_via(round_start, evaluate_tile, a, b, w, d);
                let n = neighbour(a, b, w);
                assert(self.distance(n.0, n.1) == round_start.distance(n.0, n.1));
                assert(entered_via(*self, evaluate_tile, a, b, w, d));
            }
            let ghost popped = *self;
            assert(s0 ==> forall|a: i32, b: i32, w: OrdDir|
                #![trigger relaxed(popped, evaluate_tile, a, b, w)]
                popped.distance(a, b) < IMPASSABLE && !popped.frontier().contains((a, b)) && (a, b) != next
                    ==> relaxed(popped, evaluate_tile, a, b, w)) by {
                if s0 {
                    assert forall|a: i32, b: i32, w: OrdDir|
                        popped.distance(a, b) < IMPASSABLE && !popped.frontier().contains((a, b)) && (a, b) != next
                            implies #[trigger] relaxed(popped, evaluate_tile, a, b, w) by {
                        if round_start.frontier().contains((a, b)) {
                            lemma_remove_keeps(round_start.frontier(), index as int, (a, b));
                        }
                        assert(relaxed(round_start, evaluate_tile, a, b, w));
                    }
                }
            }
            let base = self.get(next.0, next.1);
            let directions = OrdDir::all();
            let mut k: usize = 0;
            let ghost mut changed = false;
            while k < 8
                invariant
                    0 <= k <= 8,
                    start == *old(self),
                    directions@ == ord_all(),
                    self.well_formed(),
                    self.frontier_explored(),
                    self.grown_from(start),
                    in_reach(next.0 as int, next.1 as int, base as int),
                    self.distance(next.0, next.1) == base,
                    base < IMPASSABLE,
                    s0 == settled(start, evaluate_tile),
                    forall|a: i32, b: i32|
                        start.distance(a, b) == IMPASSABLE ==> #[trigger] self.distance(a, b) == IMPASSABLE,
                    s0 ==> forall|a: i32, b: i32, w: OrdDir|
                        #![trigger relaxed(*self, evaluate_tile, a, b, w)]
                        self.distance(a, b) < IMPASSABLE && !self.frontier().contains((a, b)) && (a, b) != next
                            ==> relaxed(*self, evaluate_tile, a, b, w),
                    forall|j: int| 0 <= j < k ==> #[trigger] relaxed(*self, evaluate_tile, next.0, next.1, directions@[j]),
                    forall|a: i32, b: i32, d: u16| d < IMPASSABLE ==> call_requires(evaluate_tile, (a, b, d)),
                    forall|a: i32, b: i32, d: u16, r: u16|
                        d < IMPASSABLE && call_ensures(evaluate_tile, (a, b, d), r) ==> r > d,
                    forall|a: i32, b: i32| #[trigger] self.distance(a, b) <= start.distance(a, b),
                    forall|a: i32, b: i32| #[trigger] self.distance(a, b) <= popped.distance(a, b),
                    forall|a: i32, b: i32|
                        #[trigger] self.distance(a, b) != start.distance(a, b)
                            ==> entered_from_neighbour(*self, evaluate_tile, a, b),
                    changed ==> potential(self.map).len() < potential(round_start.map).len(),
                    !changed ==> self.map == popped.map && self.frontier@ == popped.frontier@,
                    popped.frontier@.len() < round_start.frontier@.len(),
                    popped.map == round_start.map,
                decreases 8 - k,
            {
                let direction = directions[k];
                let (dx, dy) = direction.as_offset();
                let ax = next.0 + dx;
                let ay = next.1 + dy;
                let ghost iteration_start = *self;
                assert(neighbour(next.0, next.1, direction) == (ax, ay));
                assert((ax, ay) != next);
                let tile = self.get(ax, ay);
                if tile != IMPASSABLE {
                    let distance = evaluate_tile(ax, ay, base);
                    if distance < tile {
                        let ghost before = *self;
                        self.explore_tile(ax, ay, distance);
                        proof {
                            assert forall|a: i32, b: i32, w: OrdDir|
                                (a, b) != (ax, ay) && #[trigger] relaxed(before, evaluate_tile, a, b, w)
                                    implies relaxed(*self, evaluate_tile, a, b, w) by {
                                lemma_relaxed_after_lowering(before, *self, evaluate_tile, a, b, w, ax, ay);
                            }
                            assert forall|a: i32, b: i32|
                                (a, b) != (ax, ay) && !self.frontier().contains((a, b))
                                    implies !#[trigger] before.frontier().contains((a, b)) by {
                                if before.frontier().contains((a, b)) {
                                    lemma_contains_push(before.frontier(), (ax, ay), (a, b));
                                }
                            }
                            assert(relaxed(*self, evaluate_tile, next.0, next.1, direction)) by {
                                assert(call_ensures(evaluate_tile, (ax, ay, base), distance));
                            }
                            if s0 {
                                assert forall|a: i32, b: i32, w: OrdDir|
                                    self.distance(a, b) < IMPASSABLE && !self.frontier().contains((a, b)) && (a, b) != next
                                        implies #[trigger] relaxed(*self, evaluate_tile, a, b, w) by {
                                    if (a, b) == (ax, ay) {
                                        if distance != IMPASSABLE {
                                            lemma_contains_push(before.frontier(), (ax, ay), (a, b));
                                        }
                                    } else {
                                        assert(!before.frontier().contains((a, b)));
                                        assert(relaxed(before, evaluate_tile, a, b, w));
                                    }
                                }
                            }
                            assert forall|j: int| 0 <= j < k + 1 implies #[trigger] relaxed(
                                *self,
                                evaluate_tile,
                                next.0,
                                next.1,
                                directions@[j],
                            ) by {
                                if j < k {
                                    assert(relaxed(before, evaluate_tile, next.0, next.1, directions@[j]));
                                }
                            }
                            assert(distance > base);
                            assert(start.distance(ax, ay) >= tile);
                            assert(self.grown_from(start)) by {
                                assert forall|a: i32, b: i32|
                                    #[trigger] self.distance(a, b) != start.distance(a, b) && self.distance(a, b)
                                        < IMPASSABLE implies in_reach(a as int, b as int, self.distance(a, b) as int) by {
                                    if (a, b) != (ax, ay) {
                                        assert(self.distance(a, b) == before.distance(a, b));
                                    }
                                }
                                assert forall|i: int| 0 <= i < self.frontier().len() implies in_search_bounds(
                                    #[trigger] self.frontier()[i].0 as int,
                                    self.frontier()[i].1 as int,
                                ) || self.distance(self.frontier()[i].0, self.frontier()[i].1) != start.distance(
                                    self.frontier()[i].0,
                                    self.frontier()[i].1,
                                ) by {
                                    if i < before.frontier().len() {
                                        assert(self.frontier()[i] == before.frontier()[i]);
                                        let c = self.frontier()[i];
                                        if c != (ax, ay) {
                                            assert(self.distance(c.0, c.1) == before.distance(c.0, c.1));
                                        }
                                    }
                                }
                            }
                            assert forall|p: i32, q: i32| #[trigger] self.map.cell(p, q) <= round_start.map.cell(p, q) by {
                                assert(self.distance(p, q) <= before.distance(p, q));
                                assert(before.distance(p, q) <= popped.distance(p, q));
                            }
                            assert forall|p: i32, q: i32| #[trigger] self.distance(p, q) <= start.distance(p, q) by {
                                assert(self.distance(p, q) <= before.distance(p, q));
                                assert(before.distance(p, q) <= start.distance(p, q));
                            }
                            assert forall|p: i32, q: i32| #[trigger] self.distance(p, q) <= popped.distance(p, q) by {
                                assert(self.distance(p, q) <= before.distance(p, q));
                                assert(before.distance(p, q) <= popped.distance(p, q));
                            }
                            lemma_potential_shrinks(round_start.map, self.map, ax, ay);
                            assert(neighbour(ax, ay, reverse(direction)) == next) by {
                                lemma_reverse_offset(direction);
                            }
                            assert forall|a: i32, b: i32|
                                #[trigger] self.distance(a, b) != start.distance(a, b)
                                    implies entered_from_neighbour(*self, evaluate_tile, a, b) by {
                                if a == ax && b == ay {
                                    assert(entered_via(*self, evaluate_tile, a, b, reverse(direction), base));
                                } else {
                                    let (w, d) = choose|w: OrdDir, d: u16| entered_via(before, evaluate_tile, a, b, w, d);
                                    let n = neighbour(a, b, w);
                                    assert(self.distance(n.0, n.1) <= before.distance(n.0, n.1));
                                    assert(entered_via(*self, evaluate_tile, a, b, w, d));
                                }
                            }
                            changed = true;
                        }
                    } else {
                        proof {
                            assert(relaxed(*self, evaluate_tile, next.0, next.1, direction)) by {
                                assert(call_ensures(evaluate_tile, (ax, ay, base), distance));
                            }
                        }
                    }
                    if ax == x && ay == y {
                        proof {
                            lemma_reverse_offset(direction);
                            assert(neighbour(x, y, reverse(direction)) == next);
                            let n = neighbour(x, y, reverse(direction));
                            assert(self.distance(n.0, n.1) == base);
                            assert(self.distance(x, y) <= distance);
                            assert(call_ensures(evaluate_tile, (x, y, self.distance(n.0, n.1)), distance));
                            assert(reached(*self, evaluate_tile, x, y));
                        }
                        return;
                    }
                } else {
                    proof {
                        assert(relaxed(*self, evaluate_tile, next.0, next.1, direction));
                    }
                }
                k += 1;
            }
            proof {
                if s0 {
                    assert forall|a: i32, b: i32, w: OrdDir|
                        self.distance(a, b) < IMPASSABLE && !self.frontier().contains((a, b))
                            implies #[trigger] relaxed(*self, evaluate_tile, a, b, w) by {
                        if (a, b) == next {
                            lemma_every_direction(w);
                            let j = choose|j: int| 0 <= j < 8 && ord_all()[j] == w;
                            assert(relaxed(*self, evaluate_tile, next.0, next.1, directions@[j]));
                        }
                    }
                }
            }
        }
    }

    /// The direction in which `(x, y)` gets closest to a target, if any neighbour has been explored and is passable.
    ///
    /// Among equally close neighbours, the one that comes last in `OrdDir::all` is chosen.
    pub fn step(&self, x: i32, y: i32) -> (res: Option<OrdDir>)
        requires
            self.well_formed(),
            i32::MIN < x < i32::MAX,
            i32::MIN < y < i32::MAX,
        ensures
            res == match step_choice(*self, x, y, ord_all()) {
                Some(choice) => Some(choice.0),
                None => None::<OrdDir>,
            },
    {
        let directions = OrdDir::all();
        let mut best: Option<(OrdDir, Distance)> = None;
        let mut k: usize = 0;
        while k < 8
            invariant
                0 <= k <= 8,
                directions@ == ord_all(),
                self.well_formed(),
                i32::MIN < x < i32::MAX,
                i32::MIN < y < i32::MAX,
                best == step_choice(*self, x, y, ord_all().take(k as int)),
            decreases 8 - k,
        {
            let direction = directions[k];
            let (xoff, yoff) = direction.as_offset();
            let tile = self.get(x + xoff, y + yoff);
            assert(ord_all().take(k + 1).drop_last() == ord_all().take(k as int));
            let keep = match best {
                Some(b) => b.1 < tile,
                None => false,
            };
            if tile != IMPASSABLE && tile != UNEXPLORED && !keep {
                best = Some((direction, tile));
            }
            k += 1;
        }
        assert(ord_all().take(8) == ord_all());
        match best {
            Some(b) => Some(b.0),
            None => None,
        }
    }
}

impl Default for Floor {
    fn default() -> (res: Floor)
        ensures
            res.well_formed(),
            res.frontier() == Seq::<(i32, i32)>::empty(),
            forall|x: i32, y: i32| #[trigger] res.distance(x, y) == UNEXPLORED,
    {
        Floor::new()
    }
}

proof fn lemma_contains_push<T>(s: Seq<T>, e: T, z: T)
    ensures
        s.push(e).contains(z) <==> (s.contains(z) || z == e),
{
    if s.contains(z) {
        let i = choose|i: int| 0 <= i < s.len() && s[i] == z;
        assert(s.push(e)[i] == z);
    }
    if z == e {
        assert(s.push(e)[s.len() as int] == z);
    }
    if s.push(e).contains(z) {
        let i = choose|i: int| 0 <= i < s.len() + 1 && s.push(e)[i] == z;
        if i < s.len() {
            assert(s[i] == z);
        }
    }
}

/// The opposite direction.
pub open spec fn reverse(d: OrdDir) -> OrdDir {
    match d {
        OrdDir::Up => OrdDir::Down,
        OrdDir::UpRight => OrdDir::DownLeft,
        OrdDir::Right => OrdDir::Left,
        OrdDir::DownRight => OrdDir::UpLeft,
        OrdDir::Down => OrdDir::Up,
        OrdDir::DownLeft => OrdDir::UpRight,
        OrdDir::Left => OrdDir::Right,
        OrdDir::UpLeft => OrdDir::DownRight,
    }
}

proof fn lemma_reverse_offset(d: OrdDir)
    ensures
        ord_offset(reverse(d)).0 == -ord_offset(d).0,
        ord_offset(reverse(d)).1 == -ord_offset(d).1,
{
}

/// The neighbour of `(a, b)` in direction `w` cannot be improved from `(a, b)`: it is impassable,
/// or no farther than what `f` gives it when entered from `(a, b)` at its present distance.
pub open spec fn relaxed<F: Fn(i32, i32, Distance) -> Distance>(map: Floor, f: F, a: i32, b: i32, w: OrdDir) -> bool {
    let n = neighbour(a, b, w);
    ||| map.distance(n.0, n.1) == IMPASSABLE
    ||| exists|r: u16| call_ensures(f, (n.0, n.1, map.distance(a, b)), r) && map.distance(n.0, n.1) <= r
}

/// Every reached, passable tile that is not waiting in the frontier has had all its neighbours
/// explored from it: the map cannot be improved from any tile that has been visited.
pub open spec fn settled<F: Fn(i32, i32, Distance) -> Distance>(map: Floor, f: F) -> bool {
    forall|a: i32, b: i32, w: OrdDir|
        #![trigger relaxed(map, f, a, b, w)]
        map.distance(a, b) < IMPASSABLE && !map.frontier().contains((a, b)) ==> relaxed(map, f, a, b, w)
}

/// `(x, y)` has been entered from a reached, passable neighbour: it holds no more than what `f`
/// gave it from that neighbour's distance.
pub open spec fn reached<F: Fn(i32, i32, Distance) -> Distance>(map: Floor, f: F, x: i32, y: i32) -> bool {
    exists|w: OrdDir, r: u16|
        #![trigger neighbour(x, y, w), call_ensures(f, (x, y, map.distance(neighbour(x, y, w).0, neighbour(x, y, w).1)), r)]
        {
            let n = neighbour(x, y, w);
            &&& map.distance(n.0, n.1) < IMPASSABLE
            &&& call_ensures(f, (x, y, map.distance(n.0, n.1)), r)
            &&& map.distance(x, y) <= r
        }
}

proof fn lemma_every_direction(w: OrdDir)
    ensures
        exists|j: int| 0 <= j < 8 && ord_all()[j] == w,
{
    match w {
        OrdDir::Up => assert(ord_all()[0] == w),
        OrdDir::UpRight => assert(ord_all()[1] == w),
        OrdDir::Right => assert(ord_all()[2] == w),
        OrdDir::DownRight => assert(ord_all()[3] == w),
        OrdDir::Down => assert(ord_all()[4] == w),
        OrdDir::DownLeft => assert(ord_all()[5] == w),
        OrdDir::Left => assert(ord_all()[6] == w),
        OrdDir::UpLeft => assert(ord_all()[7] == w),
    }
}

/// Lowering one tile `(u, v)` other than `(a, b)`, and never an impassable one, keeps `(a, b)` relaxed.
proof fn lemma_relaxed_after_lowering<F: Fn(i32, i32, Distance) -> Distance>(
    before: Floor,
    after: Floor,
    f: F,
    a: i32,
    b: i32,
    w: OrdDir,
    u: i32,
    v: i32,
)
    requires
        relaxed(before, f, a, b, w),
        (a, b) != (u, v),
        forall|p: i32, q: i32| (p, q) != (u, v) ==> #[trigger] after.distance(p, q) == before.distance(p, q),
        after.distance(u, v) <= before.distance(u, v),
        before.distance(u, v) != IMPASSABLE,
    ensures
        relaxed(after, f, a, b, w),
{
    let n = neighbour(a, b, w);
    assert(after.distance(a, b) == before.distance(a, b));
    if n != (u, v) {
        assert(after.distance(n.0, n.1) == before.distance(n.0, n.1));
    } else {
        let r = choose|r: u16| call_ensures(f, (n.0, n.1, before.distance(a, b)), r) && before.distance(n.0, n.1) <= r;
        assert(call_ensures(f, (n.0, n.1, after.distance(a, b)), r) && after.distance(n.0, n.1) <= r);
    }
}

proof fn lemma_remove_keeps<T>(s: Seq<T>, index: int, z: T)
    requires
        0 <= index < s.len(),
        s.contains(z),
        s[index] != z,
    ensures
        s.remove(index).contains(z),
{
    let j = choose|j: int| 0 <= j < s.len() && s[j] == z;
    if j < index {
        assert(s.remove(index)[j] == z);
    } else {
        assert(s.remove(index)[j - 1] == z);
    }
}

/// `(a, b)` holds a distance that `f` gave it when it was entered from its neighbour
/// in direction `w`, whose distance was then `d` (and is now no more than `d`).
pub open spec fn entered_via<F: Fn(i32, i32, Distance) -> Distance>(
    map: Floor,
    f: F,
    a: i32,
    b: i32,
    w: OrdDir,
    d: u16,
) -> bool {
    let n = neighbour(a, b, w);
    &&& map.distance(n.0, n.1) <= d
    &&& call_ensures(f, (a, b, d), map.distance(a, b))
}

/// `(a, b)` holds a distance that `f` gave it when it was entered from one of its neighbours.
pub open spec fn entered_from_neighbour<F: Fn(i32, i32, Distance) -> Distance>(
    map: Floor,
    f: F,
    a: i32,
    b: i32,
) -> bool {
    exists|w: OrdDir, d: u16| entered_via(map, f, a, b, w, d)
}

/// The direction and distance that `step` settles on after looking at `directions`.
pub open spec fn step_choice(map: Floor, x: i32, y: i32, directions: Seq<OrdDir>) -> Option<
    (OrdDir, u16),
>
    decreases directions.len(),
{
    if directions.len() == 0 {
        None
    } else {
        let best = step_choice(map, x, y, directions.drop_last());
        let d = directions.last();
        let n = neighbour(x, y, d);
        let tile = map.distance(n.0, n.1);
        if tile != IMPASSABLE && tile != UNEXPLORED && (best is None || best.unwrap().1 >= tile) {
            Some((d, tile))
        } else {
            best
        }
    }
}

/// `step` only ever picks an explored, passable neighbour, and one that is no farther from the
/// targets than any other explored, passable neighbour; it gives up only when no neighbour qualifies.
pub proof fn lemma_step_is_closest(map: Floor, x: i32, y: i32, directions: Seq<OrdDir>)
    ensures
        match step_choice(map, x, y, directions) {
            Some(choice) => {
                &&& directions.contains(choice.0)
                &&& choice.1 == map.distance(neighbour(x, y, choice.0).0, neighbour(x, y, choice.0).1)
                &&& choice.1 != IMPASSABLE
                &&& choice.1 != UNEXPLORED
                &&& forall|i: int|
                    0 <= i < directions.len() ==> {
                        let n = neighbour(x, y, #[trigger] directions[i]);
                        let t = map.distance(n.0, n.1);
                        t != IMPASSABLE && t != UNEXPLORED ==> choice.1 <= t
                    }
            },
            None => forall|i: int|
                0 <= i < directions.len() ==> {
                    let n = neighbour(x, y, #[trigger] directions[i]);
                    let t = map.distance(n.0, n.1);
                    t == IMPASSABLE || t == UNEXPLORED
                },
        },
    decreases directions.len(),
{
    if directions.len() > 0 {
        let rest = directions.drop_last();
        lemma_step_is_closest(map, x, y, rest);
        assert forall|i: int| 0 <= i < rest.len() implies #[trigger] directions[i] == rest[i] by {}
        let best = step_choice(map, x, y, rest);
        if best is Some && step_choice(map, x, y, directions) == best {
            let i = choose|i: int| 0 <= i < rest.len() && rest[i] == best.unwrap().0;
            assert(directions[i] == best.unwrap().0);
        }
        assert(directions[directions.len() - 1] == directions.last());
    }
}

} // verus!
