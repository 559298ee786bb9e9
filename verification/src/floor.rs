//! The tiles of the board, stored sparsely in square chunks.

use std::collections::HashMap;
use vstd::prelude::*;
use vstd::std_specs::hash::*;
use vstd::std_specs::iter::IteratorSpec;

verus! {

broadcast use group_hash_axioms;

/// Keeping this very light is probably a good idea.
/// Decorations, like statues and fountains and such, are sporadic and should be stored seperately.
#[derive(PartialEq, Eq, Copy, Clone, Debug, Structural)]
pub enum Tile {
    Floor,
    Wall,
    Exit,
}

impl Default for Tile {
    fn default() -> (t: Tile)
        ensures
            t == Tile::Wall,
    {
        Tile::Wall
    }
}

/// The width and height of a chunk, in tiles.
pub const CHUNK_SIZE: usize = 16;

/// The number of tiles in a chunk.
pub const CHUNK_AREA: usize = 256;

/// Identifies a chunk by its position in chunk coordinates.
#[derive(Clone, Copy, Debug, Eq, PartialEq, Structural)]
pub struct ChunkId(pub i32, pub i32);

/// Floor division of a coordinate by the chunk size.
pub open spec fn chunk_coord(x: int) -> int {
    x / 16
}

/// The position of a coordinate within its chunk.
pub open spec fn local_coord(x: int) -> int {
    x % 16
}

/// The index of a tile within its chunk's row-major map.
pub open spec fn local_index(x: int, y: int) -> int {
    local_coord(x) + local_coord(y) * 16
}

proof fn lemma_floor_div(x: i32)
    ensures
        i32::MIN / 16 <= chunk_coord(x as int) <= i32::MAX / 16,
        chunk_coord(x as int) * 16 + local_coord(x as int) == x,
        0 <= local_coord(x as int) < 16,
        i32::MIN <= chunk_coord(x as int) * 16 <= i32::MAX,
{
    assert(chunk_coord(x as int) * 16 + local_coord(x as int) == x) by (nonlinear_arith);
    assert(i32::MIN / 16 <= chunk_coord(x as int) <= i32::MAX / 16) by (nonlinear_arith)
        requires
            i32::MIN <= x <= i32::MAX,
    ;
}

/// The chunk that holds a tile, and the tile's index within that chunk, lead back to the tile:
/// `ChunkId::from_absolute(x, y).to_absolute(local_index(x, y)) == (x, y)`.
pub proof fn lemma_chunk_position_round_trip(x: i32, y: i32)
    ensures
        0 <= local_index(x as int, y as int) < 256,
        chunk_coord(x as int) * 16 + local_index(x as int, y as int) % 16 == x,
        chunk_coord(y as int) * 16 + local_index(x as int, y as int) / 16 == y,
{
    lemma_floor_div(x);
    lemma_floor_div(y);
    let lx = local_coord(x as int);
    let ly = local_coord(y as int);
    assert((lx + ly * 16) % 16 == lx && (lx + ly * 16) / 16 == ly) by (nonlinear_arith)
        requires
            0 <= lx < 16,
            0 <= ly < 16,
    ;
}

impl ChunkId {
    /// The chunk that holds the tile at `(x, y)`.
    pub fn from_absolute(x: i32, y: i32) -> (res: ChunkId)
        ensures
            res.0 == chunk_coord(x as int),
            res.1 == chunk_coord(y as int),
    {
        proof {
            lemma_floor_div(x);
            lemma_floor_div(y);
        }
        let cx = x.checked_div_euclid(16).unwrap();
        let cy = y.checked_div_euclid(16).unwrap();
        ChunkId(cx, cy)
    }

    /// The absolute position of the tile at `index` of this chunk's map.
    pub fn to_absolute(self, index: usize) -> (res: (i32, i32))
        requires
            i32::MIN <= self.0 * 16 <= i32::MAX,
            i32::MIN <= self.1 * 16 <= i32::MAX,
            i32::MIN <= self.0 * 16 + (index % 16) <= i32::MAX,
            i32::MIN <= self.1 * 16 + (#[verifier::truncate] ((index / 16) as i32)) <= i32::MAX,
        ensures
            res.0 == self.0 * 16 + (index % 16),
            res.1 == self.1 * 16 + (#[verifier::truncate] ((index / 16) as i32)),
    {
        let col = (index % CHUNK_SIZE) as i32;
        let row = #[verifier::truncate] ((index / CHUNK_SIZE) as i32);
        (self.0 * 16 + col, self.1 * 16 + row)
    }
}

/// Packs a chunk position into a single map key.
pub open spec fn chunk_key(cx: i32, cy: i32) -> u64 {
    ((cx as u32 as u64) << 32u64) | (cy as u32 as u64)
}

proof fn lemma_chunk_key_unpack(cx: i32, cy: i32)
    ensures
        (chunk_key(cx, cy) >> 32u64) as u32 as i32 == cx,
        chunk_key(cx, cy) as u32 as i32 == cy,
{
    assert((((((cx as u32 as u64) << 32u64) | (cy as u32 as u64)) >> 32u64) as u32 as i32) == cx)
        by (bit_vector);
    assert(((((cx as u32 as u64) << 32u64) | (cy as u32 as u64)) as u32 as i32) == cy)
        by (bit_vector);
}

proof fn lemma_chunk_key_injective(a: i32, b: i32, c: i32, d: i32)
    ensures
        chunk_key(a, b) == chunk_key(c, d) ==> a == c && b == d,
{
    lemma_chunk_key_unpack(a, b);
    lemma_chunk_key_unpack(c, d);
}

proof fn lemma_positions_distinct(x: i32, y: i32)
    ensures
        forall|a: i32, b: i32|
            !(a == x && b == y) ==> #[trigger] chunk_key(
                chunk_coord(a as int) as i32,
                chunk_coord(b as int) as i32,
            ) != chunk_key(chunk_coord(x as int) as i32, chunk_coord(y as int) as i32)
                || local_index(a as int, b as int) != local_index(x as int, y as int),
{
    assert forall|a: i32, b: i32|
        !(a == x && b == y) implies #[trigger] chunk_key(
            chunk_coord(a as int) as i32,
            chunk_coord(b as int) as i32,
        ) != chunk_key(chunk_coord(x as int) as i32, chunk_coord(y as int) as i32)
            || local_index(a as int, b as int) != local_index(x as int, y as int) by {
        lemma_floor_div(a);
        lemma_floor_div(b);
        lemma_floor_div(x);
        lemma_floor_div(y);
        lemma_chunk_key_injective(
            chunk_coord(a as int) as i32,
            chunk_coord(b as int) as i32,
            chunk_coord(x as int) as i32,
            chunk_coord(y as int) as i32,
        );
        let la = local_coord(a as int);
        let lb = local_coord(b as int);
        let lx = local_coord(x as int);
        let ly = local_coord(y as int);
        if la + lb * 16 == lx + ly * 16 {
            assert(la == lx && lb == ly) by (nonlinear_arith)
                requires
                    la + lb * 16 == lx + ly * 16,
                    0 <= la < 16,
                    0 <= lb < 16,
                    0 <= lx < 16,
                    0 <= ly < 16,
            ;
        }
    }
}

/// The chunk column that a key stands for.
pub open spec fn key_cx(k: u64) -> i32 {
    (k >> 32u64) as u32 as i32
}

/// The chunk row that a key stands for.
pub open spec fn key_cy(k: u64) -> i32 {
    k as u32 as i32
}

/// A key made from the chunk of some position that fits in an `i32`.
pub open spec fn valid_chunk_key(k: u64) -> bool {
    &&& i32::MIN / 16 <= key_cx(k) <= i32::MAX / 16
    &&& i32::MIN / 16 <= key_cy(k) <= i32::MAX / 16
    &&& chunk_key(key_cx(k), key_cy(k)) == k
}

proof fn lemma_chunk_key_valid(x: i32, y: i32)
    ensures
        valid_chunk_key(chunk_key(chunk_coord(x as int) as i32, chunk_coord(y as int) as i32)),
{
    lemma_floor_div(x);
    lemma_floor_div(y);
    lemma_chunk_key_unpack(chunk_coord(x as int) as i32, chunk_coord(y as int) as i32);
}

proof fn lemma_position_of_index(c: int, l: int)
    requires
        i32::MIN / 16 <= c <= i32::MAX / 16,
        0 <= l < 16,
    ensures
        chunk_coord(c * 16 + l) == c,
        local_coord(c * 16 + l) == l,
        i32::MIN <= c * 16 + l <= i32::MAX,
{
    assert(chunk_coord(c * 16 + l) == c && local_coord(c * 16 + l) == l) by (nonlinear_arith)
        requires
            0 <= l < 16,
    ;
    assert(i32::MIN <= c * 16 + l <= i32::MAX) by (nonlinear_arith)
        requires
            i32::MIN / 16 <= c <= i32::MAX / 16,
            0 <= l < 16,
    ;
}

proof fn lemma_contains_push<T>(s: Seq<T>, x: T, e: T)
    requires
        s.contains(e),
    ensures
        s.push(x).contains(e),
{
    let i = choose|i: int| 0 <= i < s.len() && s[i] == e;
    assert(s.push(x)[i] == e);
}

proof fn lemma_contains_prefix<T>(s: Seq<T>, t: Seq<T>, e: T)
    requires
        s.contains(e),
        s.len() <= t.len(),
        forall|m: int| 0 <= m < s.len() ==> t[m] == s[m],
    ensures
        t.contains(e),
{
    let i = choose|i: int| 0 <= i < s.len() && s[i] == e;
    assert(t[i] == e);
}

fn unpack_chunk_key(k: u64) -> (res: (i32, i32))
    ensures
        res.0 == key_cx(k),
        res.1 == key_cy(k),
{
    ((k >> 32u64) as u32 as i32, k as u32 as i32)
}

fn make_chunk_key(cx: i32, cy: i32) -> (k: u64)
    ensures
        k == chunk_key(cx, cy),
{
    ((cx as u32 as u64) << 32u64) | (cy as u32 as u64)
}

/// A square of cells, stored row by row.
#[derive(Clone, Debug)]
pub struct Chunk<T> {
    map: Vec<T>,
}

impl<T: Copy> Chunk<T> {
    pub closed spec fn well_formed(&self) -> bool {
        self.map@.len() == 256
    }

    /// The cell at `index` of this chunk's row-major map.
    pub closed spec fn at(&self, index: int) -> T {
        self.map@[index]
    }

    /// A chunk whose every cell holds `fill`.
    pub fn filled(fill: T) -> (c: Chunk<T>)
        ensures
            c.well_formed(),
            forall|i: int| 0 <= i < 256 ==> #[trigger] c.at(i) == fill,
    {
        let mut map: Vec<T> = Vec::new();
        while map.len() < CHUNK_AREA
            invariant
                map@.len() <= 256,
                forall|i: int| 0 <= i < map@.len() ==> #[trigger] map@[i] == fill,
            decreases 256 - map@.len(),
        {
            map.push(fill);
        }
        Chunk { map }
    }
}

impl Default for Chunk<Option<Tile>> {
    fn default() -> (c: Chunk<Option<Tile>>)
        ensures
            c.well_formed(),
            forall|i: int| 0 <= i < 256 ==> #[trigger] c.at(i) == None::<Tile>,
    {
        Chunk::filled(None)
    }
}

/// An unbounded grid of cells, stored sparsely in chunks.
/// Cells in chunks that were never touched hold the grid's `fill` value.
#[derive(Clone, Debug)]
pub struct ChunkMap<T> {
    chunks: HashMap<u64, Chunk<T>>,
    fill: T,
}

impl<T: Copy> ChunkMap<T> {
    pub closed spec fn well_formed(&self) -> bool {
        forall|k: u64| #[trigger]
            self.chunks@.contains_key(k) ==> {
                &&& self.chunks@[k].well_formed()
                &&& valid_chunk_key(k)
            }
    }

    /// The value of untouched cells.
    pub closed spec fn fill_value(&self) -> T {
        self.fill
    }

    /// The keys of the chunks that exist.
    pub closed spec fn chunk_keys(&self) -> Set<u64> {
        self.chunks@.dom()
    }

    /// The cell at `(x, y)`.
    pub closed spec fn cell(&self, x: i32, y: i32) -> T {
        let key = chunk_key(chunk_coord(x as int) as i32, chunk_coord(y as int) as i32);
        if self.chunks@.contains_key(key) {
            self.chunks@[key].at(local_index(x as int, y as int))
        } else {
            self.fill
        }
    }

    /// A grid where every cell holds `fill`.
    pub fn new(fill: T) -> (res: ChunkMap<T>)
        ensures
            res.well_formed(),
            res.fill_value() == fill,
            forall|x: i32, y: i32| #[trigger] res.cell(x, y) == fill,
            res.chunk_keys() == Set::<u64>::empty(),
    {
        ChunkMap { chunks: HashMap::new(), fill }
    }

    fn index_of(x: i32, y: i32) -> (res: (u64, usize))
        ensures
            res.0 == chunk_key(chunk_coord(x as int) as i32, chunk_coord(y as int) as i32),
            res.1 == local_index(x as int, y as int),
            res.1 < 256,
    {
        proof {
            lemma_floor_div(x);
            lemma_floor_div(y);
        }
        let chunk_id = ChunkId::from_absolute(x, y);
        let lx = x - chunk_id.0 * 16;
        let ly = y - chunk_id.1 * 16;
        assert(0 <= lx + ly * 16 < 256) by (nonlinear_arith)
            requires
                0 <= lx < 16,
                0 <= ly < 16,
        ;
        (make_chunk_key(chunk_id.0, chunk_id.1), (lx + ly * 16) as usize)
    }

    pub fn get(&self, x: i32, y: i32) -> (res: T)
        requires
            self.well_formed(),
        ensures
            res == self.cell(x, y),
    {
        let (key, index) = Self::index_of(x, y);
        assert(obeys_key_model::<u64>());
        match self.chunks.get(&key) {
            Some(chunk) => {
                chunk.map[index]
            },
            None => self.fill,
        }
    }

    /// A mutable reference to the cell at `(x, y)`; its chunk is created if it did not exist yet.
    pub fn get_mut(&mut self, x: i32, y: i32) -> (res: &mut T)
        requires
            old(self).well_formed(),
        ensures
            *res == old(self).cell(x, y),
            final(self).well_formed(),
            final(self).fill_value() == old(self).fill_value(),
            final(self).cell(x, y) == *final(res),
            final(self).chunk_keys() == old(self).chunk_keys().insert(
                chunk_key(chunk_coord(x as int) as i32, chunk_coord(y as int) as i32),
            ),
            forall|a: i32, b: i32|
                !(a == x && b == y) ==> #[trigger] final(self).cell(a, b) == old(self).cell(a, b),
    {
        let (key, index) = Self::index_of(x, y);
        assert(obeys_key_model::<u64>());
        assert(builds_valid_hashers::<std::hash::RandomState>());
        proof {
            lemma_positions_distinct(x, y);
            lemma_chunk_key_valid(x, y);
        }
        let ghost old_chunks = self.chunks@;
        let fill = self.fill;
        let entry = self.chunks.entry(key);
        let ghost current = entry.value();
        assert(current == old_chunks.get(key));
        let chunk = entry.or_insert(Chunk::filled(fill));
        proof {
            if old_chunks.contains_key(key) {
                assert(*chunk == old_chunks[key]);
            } else {
                assert(current is None);
                assert(chunk.at(index as int) == fill);
            }
        }
        assert(chunk.map@.len() == 256);
        assert forall|a: i32, b: i32|
            chunk_key(chunk_coord(a as int) as i32, chunk_coord(b as int) as i32) == key implies
                #[trigger] old(self).cell(a, b) == chunk.at(local_index(a as int, b as int)) by {
            lemma_floor_div(a);
            lemma_floor_div(b);
            assert(0 <= local_index(a as int, b as int) < 256) by (nonlinear_arith)
                requires
                    0 <= local_coord(a as int) < 16,
                    0 <= local_coord(b as int) < 16,
            ;
        }
        assert(chunk.map@[index as int] == old(self).cell(x, y));
        let res = &mut chunk.map[index];
        res
    }
}

/// The position and tile of entry `index` of the chunk with key `k`.
pub open spec fn chunk_position(k: u64, index: int, t: Option<Tile>) -> (i32, i32, Tile) {
    (
        (key_cx(k) * 16 + index % 16) as i32,
        (key_cy(k) * 16 + index / 16) as i32,
        t.unwrap(),
    )
}

/// The key of the chunk that holds the position of `p`.
pub open spec fn position_key(p: (i32, i32, Tile)) -> u64 {
    chunk_key(chunk_coord(p.0 as int) as i32, chunk_coord(p.1 as int) as i32)
}

/// The index of the position of `p` inside its chunk.
pub open spec fn position_index(p: (i32, i32, Tile)) -> int {
    local_index(p.0 as int, p.1 as int)
}

/// No two entries of `s` stand at the same position.
pub open spec fn positions_distinct(s: Seq<(i32, i32, Tile)>) -> bool {
    forall|m: int, n: int|
        0 <= m < n < s.len() ==> (#[trigger] s[m]).0 != (#[trigger] s[n]).0 || s[m].1 != s[n].1
}

/// The chunk that a key stands for.
pub open spec fn key_chunk(k: u64) -> ChunkId {
    ChunkId(key_cx(k), key_cy(k))
}

proof fn lemma_chunk_ids_insert(keys: Set<u64>, k: u64)
    ensures
        keys.insert(k).map(|j: u64| key_chunk(j)) == keys.map(|j: u64| key_chunk(j)).insert(key_chunk(k)),
{
    let f = |j: u64| key_chunk(j);
    assert forall|c: ChunkId| #[trigger] keys.insert(k).map(f).contains(c) implies keys.map(f).insert(
        key_chunk(k),
    ).contains(c) by {
        let j = choose|j: u64| keys.insert(k).contains(j) && f(j) == c;
        if j != k {
            assert(keys.contains(j));
        }
    }
    assert forall|c: ChunkId| #[trigger] keys.map(f).insert(key_chunk(k)).contains(c) implies keys.insert(
        k,
    ).map(f).contains(c) by {
        if c == key_chunk(k) {
            assert(keys.insert(k).contains(k) && f(k) == c);
        } else {
            let j = choose|j: u64| keys.contains(j) && f(j) == c;
            assert(keys.insert(k).contains(j));
        }
    }
    assert(keys.insert(k).map(f) =~= keys.map(f).insert(key_chunk(k)));
}

/// A board of tiles; every position that was never written is void (`None`).
#[derive(Clone, Debug)]
pub struct Floor {
    map: ChunkMap<Option<Tile>>,
}

impl Floor {
    pub closed spec fn well_formed(&self) -> bool {
        &&& self.map.well_formed()
        &&& self.map.fill_value() == None::<Tile>
    }

    /// The tile at `(x, y)`, or `None` where the board is void.
    pub closed spec fn tile(&self, x: i32, y: i32) -> Option<Tile> {
        self.map.cell(x, y)
    }

    /// The chunks that exist: those that a write has touched.
    pub closed spec fn chunk_ids(&self) -> Set<ChunkId> {
        self.map.chunk_keys().map(|k: u64| key_chunk(k))
    }

    /// A board made only of void.
    pub fn new() -> (res: Floor)
        ensures
            res.well_formed(),
            forall|x: i32, y: i32| #[trigger] res.tile(x, y) == None::<Tile>,
            res.chunk_ids() == Set::<ChunkId>::empty(),
    {
        let res = Floor { map: ChunkMap::new(None) };
        assert(res.chunk_ids() =~= Set::<ChunkId>::empty());
        res
    }

    /// Every tile of the board that is not void, with its position, each position once,
    /// in no particular order.
    pub fn iter(&self) -> (res: Vec<(i32, i32, Tile)>)
        requires
            self.well_formed(),
        ensures
            positions_distinct(res@),
            forall|m: int| 0 <= m < res@.len() ==> #[trigger] self.tile(res@[m].0, res@[m].1) == Some(res@[m].2),
            forall|x: i32, y: i32| #[trigger] self.tile(x, y) is Some ==> res@.contains((x, y, self.tile(x, y).unwrap())),
    {
        assert(obeys_key_model::<u64>());
        assert(builds_valid_hashers::<std::hash::RandomState>());
        let mut res: Vec<(i32, i32, Tile)> = Vec::new();
        let ghost entries = spec_hash_map_iter(&self.map.chunks).remaining();
        let ghost mut done: int = 0;
        let ghost mut keys_done: Seq<u64> = Seq::empty();
        for entry in it: self.map.chunks.iter()
            invariant
                self.well_formed(),
                entries == it.seq(),
                entries.no_duplicates(),
                done == it.index(),
                keys_done.len() == done,
                forall|j: int| 0 <= j < done ==> keys_done[j] == *(#[trigger] entries[j]).0,
                forall|m: int| 0 <= m < res@.len() ==> keys_done.contains(position_key(#[trigger] res@[m])),
                positions_distinct(res@),
                forall|j: int, i: int|
                    #![trigger entries[j], res@.contains(chunk_position(*entries[j].0, i, entries[j].1.at(i)))]
                    0 <= j < done && 0 <= i < 256 && entries[j].1.at(i) is Some ==>
                        res@.contains(chunk_position(*entries[j].0, i, entries[j].1.at(i))),
                forall|m: int| 0 <= m < res@.len() ==> #[trigger] self.tile(res@[m].0, res@[m].1) == Some(res@[m].2),
        {
            let (key, chunk) = entry;
            assert(entries[done] == (key, chunk));
            assert(self.map.chunks@.contains_key(*key));
            let (cx, cy) = unpack_chunk_key(*key);
            proof {
                if keys_done.contains(*key) {
                    let j = choose|j: int| 0 <= j < keys_done.len() && keys_done[j] == *key;
                    assert(entries[j].0 == entries[done].0);
                    assert(self.map.chunks@[*entries[j].0] == *entries[j].1);
                    assert(entries[j] == entries[done]);
                    assert(false);
                }
            }
            let ghost before = res@;
            let mut i: usize = 0;
            while i < CHUNK_AREA
                invariant
                    0 <= i <= 256,
                    self.well_formed(),
                    self.map.chunks@.contains_key(*key),
                    self.map.chunks@[*key] == *chunk,
                    cx == key_cx(*key),
                    cy == key_cy(*key),
                    forall|m: int| 0 <= m < before.len() ==> res@[m] == before[m],
                    before.len() <= res@.len(),
                    !keys_done.contains(*key),
                    valid_chunk_key(*key),
                    forall|m: int| 0 <= m < before.len() ==> keys_done.contains(position_key(#[trigger] before[m])),
                    forall|m: int| before.len() <= m < res@.len() ==>
                        position_key(#[trigger] res@[m]) == *key && position_index(res@[m]) < i,
                    positions_distinct(res@),
                    forall|m: int| 0 <= m < res@.len() ==> #[trigger] self.tile(res@[m].0, res@[m].1) == Some(res@[m].2),
                    forall|l: int| 0 <= l < i && chunk.at(l) is Some ==>
                        res@.contains(#[trigger] chunk_position(*key, l, chunk.at(l))),
                decreases 256 - i,
            {
                assert(chunk.well_formed());
                match chunk.map[i] {
                    Some(t) => {
                        proof {
                            lemma_position_of_index(cx as int, (i % 16) as int);
                            lemma_position_of_index(cy as int, (i / 16) as int);
                        }
                        let x = cx * 16 + (i % CHUNK_SIZE) as i32;
                        let y = cy * 16 + (i / CHUNK_SIZE) as i32;
                        assert(local_index(x as int, y as int) == i);
                        let ghost prev = res@;
                        assert(position_key((x, y, t)) == *key);
                        assert forall|m: int| 0 <= m < prev.len() implies
                            (#[trigger] prev[m]).0 != x || prev[m].1 != y by {
                            if m < before.len() {
                                assert(prev[m] == before[m]);
                                assert(keys_done.contains(position_key(before[m])));
                            } else {
                                assert(position_index(prev[m]) < i);
                            }
                        }
                        res.push((x, y, t));
                        assert(res@[res@.len() - 1] == (x, y, t));
                        assert(res@.last() == chunk_position(*key, i as int, chunk.at(i as int)));
                        assert forall|l: int| 0 <= l < i && chunk.at(l) is Some implies
                            res@.contains(#[trigger] chunk_position(*key, l, chunk.at(l))) by {
                            lemma_contains_push(prev, (x, y, t), chunk_position(*key, l, chunk.at(l)));
                        }
                    },
                    None => {},
                }
                i += 1;
            }
            proof {
                let ghost old_keys = keys_done;
                keys_done = keys_done.push(*key);
                assert forall|m: int| 0 <= m < res@.len() implies keys_done.contains(
                    position_key(#[trigger] res@[m]),
                ) by {
                    if m < before.len() {
                        assert(res@[m] == before[m]);
                        lemma_contains_push(old_keys, *key, position_key(before[m]));
                    } else {
                        assert(keys_done[done] == *key);
                    }
                }
                assert forall|j: int, i: int|
                    0 <= j < done + 1 && 0 <= i < 256 && entries[j].1.at(i) is Some implies
                        #[trigger] res@.contains(chunk_position(*entries[j].0, i, entries[j].1.at(i))) by {
                    if j < done {
                        lemma_contains_prefix(before, res@, chunk_position(*entries[j].0, i, entries[j].1.at(i)));
                    }
                }
                done = done + 1;
            }
        }
        proof {
            assert forall|x: i32, y: i32| #[trigger] self.tile(x, y) is Some implies res@.contains((x, y, self.tile(x, y).unwrap())) by {
                let t = self.tile(x, y).unwrap();
                lemma_floor_div(x);
                lemma_floor_div(y);
                let k = chunk_key(chunk_coord(x as int) as i32, chunk_coord(y as int) as i32);
                lemma_chunk_key_unpack(chunk_coord(x as int) as i32, chunk_coord(y as int) as i32);
                assert(self.map.chunks@.contains_key(k));
                assert(entries.len() == done);
                assert(entries.contains((&k, &self.map.chunks@[k])));
                let j = choose|j: int| 0 <= j < entries.len() && entries[j] == (&k, &self.map.chunks@[k]);
                let i = local_index(x as int, y as int);
                assert(0 <= i < 256) by (nonlinear_arith)
                    requires
                        i == local_coord(x as int) + local_coord(y as int) * 16,
                        0 <= local_coord(x as int) < 16,
                        0 <= local_coord(y as int) < 16,
                ;
                assert(i % 16 == local_coord(x as int) && i / 16 == local_coord(y as int)) by (nonlinear_arith)
                    requires
                        i == local_coord(x as int) + local_coord(y as int) * 16,
                        0 <= local_coord(x as int) < 16,
                        0 <= local_coord(y as int) < 16,
                ;
                assert(entries[j].1.at(i) == Some(t));
                assert(res@.contains(chunk_position(*entries[j].0, i, entries[j].1.at(i))));
                assert(chunk_position(k, i, Some(t)) == (x, y, t));
            }
        }
        res
    }

    pub fn get(&self, x: i32, y: i32) -> (res: Option<Tile>)
        requires
            self.well_formed(),
        ensures
            res == self.tile(x, y),
    {
        self.map.get(x, y)
    }

    /// A mutable reference to the tile at `(x, y)`; its chunk is created if it did not exist yet.
    pub fn get_mut(&mut self, x: i32, y: i32) -> (res: &mut Option<Tile>)
        requires
            old(self).well_formed(),
        ensures
            *res == old(self).tile(x, y),
            final(self).well_formed(),
            final(self).tile(x, y) == *final(res),
            forall|a: i32, b: i32|
                !(a == x && b == y) ==> #[trigger] final(self).tile(a, b) == old(self).tile(a, b),
            final(self).chunk_ids() == old(self).chunk_ids().insert(
                ChunkId(chunk_coord(x as int) as i32, chunk_coord(y as int) as i32),
            ),
    {
        proof {
            let cx = chunk_coord(x as int) as i32;
            let cy = chunk_coord(y as int) as i32;
            lemma_chunk_key_unpack(cx, cy);
            lemma_chunk_ids_insert(self.map.chunk_keys(), chunk_key(cx, cy));
        }
        let res = self.map.get_mut(x, y);
        res
    }
}

impl Default for Floor {
    fn default() -> (res: Floor)
        ensures
            res.well_formed(),
            forall|x: i32, y: i32| #[trigger] res.tile(x, y) == None::<Tile>,
    {
        Floor::new()
    }
}

} // verus!
