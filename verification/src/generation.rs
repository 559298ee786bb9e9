//! Generating a floor: vaults are placed at random at the open edges of the ones placed before.

use crate::character::{Piece, Sheet};
use crate::floor::{Floor, Tile};
use crate::resource::{self, Resource};
use crate::vault::{Vault, VaultSet};
use crate::world::{vault_characters_placed, vault_collides, vault_height, vault_stamped, Manager};
use rand::seq::SliceRandom;
use rand::SeedableRng;
use vstd::prelude::*;
use vstd::string::*;
use vstd::multiset::Multiset;

verus! {

#[verifier::external_type_specification]
#[verifier::external_body]
pub struct ExStdRng(rand::rngs::StdRng);

/// The number of bytes of a seed.
pub const SEED_LENGTH: usize = 32;

/// `rand::rngs::StdRng::from_seed`: a generator seeded with `seed`.
#[verifier::external_body]
fn seeded_rng(seed: [u8; 32]) -> rand::rngs::StdRng {
    rand::rngs::StdRng::from_seed(seed)
}

/// `SliceRandom::partial_shuffle(edges, rng, 1)`: swaps the last edge with one chosen at random
/// and hands back the edge now last; `None` when there are no edges.
#[verifier::external_body]
fn pick_last(edges: &mut Vec<(i32, i32)>, rng: &mut rand::rngs::StdRng) -> (res: Option<(i32, i32)>)
    ensures
        old(edges)@.len() == 0 ==> res is None && final(edges)@ == old(edges)@,
        old(edges)@.len() > 0 ==> exists|j: int|
            0 <= j < old(edges)@.len() && final(edges)@ == old(edges)@.update(
                j,
                old(edges)@.last(),
            ).update(old(edges)@.len() - 1, old(edges)@[j]) && res == Some(old(edges)@[j]),
{
    let (chosen, _) = edges.partial_shuffle(rng, 1);
    chosen.first().copied()
}

/// `SliceRandom::choose`: one of `items` at random, `None` when there are none.
#[verifier::external_body]
fn choose_one<'a>(items: &'a [String], rng: &mut rand::rngs::StdRng) -> (res: Option<&'a String>)
    ensures
        res is None <==> items@.len() == 0,
        res matches Some(s) ==> exists|j: int| 0 <= j < items@.len() && items@[j] == *s,
{
    items.choose(rng)
}

/// `SliceRandom::shuffle`: the edges in an order chosen at random.
#[verifier::external_body]
fn shuffle_edges(edges: &mut Vec<(i32, i32)>, rng: &mut rand::rngs::StdRng)
    ensures
        final(edges)@.to_multiset() == old(edges)@.to_multiset(),
{
    edges.shuffle(rng)
}

/// The seed that `seed` spells: its first 32 bytes, padded with zeros.
pub open spec fn seed_bytes(seed: Seq<u8>) -> Seq<u8> {
    Seq::new(32, |i: int| if i < seed.len() { seed[i] } else { 0u8 })
}

/// The seed of a generator, from the first bytes of `seed`.
pub fn seed_from(seed: &str) -> (res: [u8; 32])
    ensures
        res@ == seed_bytes(seed.spec_bytes()),
{
    let bytes = seed.as_bytes();
    let mut res = [0u8; 32];
    let mut i: usize = 0;
    while i < SEED_LENGTH && i < bytes.len()
        invariant
            0 <= i <= SEED_LENGTH,
            i <= bytes@.len(),
            bytes@ == seed.spec_bytes(),
            res@.len() == 32,
            forall|j: int| 0 <= j < 32 ==> res@[j] == if j < i { bytes@[j] } else { 0u8 },
        decreases SEED_LENGTH - i,
    {
        res[i] = bytes[i];
        i += 1;
    }
    assert forall|j: int| 0 <= j < 32 implies res@[j] == seed_bytes(seed.spec_bytes())[j] by {
        if j < i {
            assert(j < bytes@.len());
        }
    }
    assert(res@ == seed_bytes(seed.spec_bytes()));
    res
}

/// Where vault `v` goes so that its edge `e` lands on `(px, py)`, when it fits in the board's
/// coordinates along with its characters.
pub open spec fn placement(v: Vault, px: i32, py: i32, e: (i32, i32)) -> Option<(i32, i32)> {
    let x = px - e.0;
    let y = py - e.1;
    if i32::MIN <= x && x + v.width <= i32::MAX && i32::MIN <= y && y + vault_height(v) <= i32::MAX
        && forall|i: int|
        0 <= i < v.characters@.len() ==> i32::MIN <= x + (#[trigger] v.characters@[i]).0 <= i32::MAX
            && i32::MIN <= y + v.characters@[i].1 <= i32::MAX {
        Some((x as i32, y as i32))
    } else {
        None
    }
}

/// The first of the edges `es` from `from` on at which vault `v` fits on `floor` at `(px, py)`.
pub open spec fn first_fit(floor: Floor, v: Vault, px: i32, py: i32, es: Seq<(i32, i32)>, from: int) -> Option<int>
    decreases es.len() - from,
{
    if from < 0 || from >= es.len() {
        None
    } else if placement(v, px, py, es[from]) matches Some((x, y)) && !vault_collides(floor, v, x, y) {
        Some(from)
    } else {
        first_fit(floor, v, px, py, es, from + 1)
    }
}

/// The edges `es` moved by `(x, y)`, without those that leave the board's coordinates.
pub open spec fn shifted(es: Seq<(i32, i32)>, x: i32, y: i32) -> Seq<(i32, i32)>
    decreases es.len(),
{
    if es.len() == 0 {
        Seq::empty()
    } else {
        let e = es.last();
        shifted(es.drop_last(), x, y) + if i32::MIN <= x + e.0 <= i32::MAX && i32::MIN <= y + e.1
            <= i32::MAX {
            seq![((x + e.0) as i32, (y + e.1) as i32)]
        } else {
            Seq::empty()
        }
    }
}

/// The floor `after` keeps every tile of `before` that is not void.
pub open spec fn terrain_kept(before: Floor, after: Floor) -> bool {
    forall|a: i32, b: i32| #[trigger] before.tile(a, b) is Some ==> after.tile(a, b) == before.tile(a, b)
}

/// The pieces of `before` are the last ones of `after`.
pub open spec fn pieces_kept<T>(before: Seq<T>, after: Seq<T>) -> bool {
    before.len() <= after.len() && after.skip(after.len() - before.len()) == before
}

/// The vaults of `set` exist, and so do the sheets of their characters.
pub open spec fn set_complete(set: VaultSet, vaults: Map<Seq<char>, Vault>, sheets: Map<Seq<char>, Sheet>) -> bool {
    forall|k: int|
        0 <= k < set.vaults@.len() ==> {
            let id = (#[trigger] set.vaults@[k])@;
            &&& vaults.contains_key(id)
            &&& forall|j: int|
                0 <= j < vaults[id].characters@.len() ==> sheets.contains_key(
                    (#[trigger] vaults[id].characters@[j]).2@,
                )
        }
}

/// Why generating from `set` may fail with identifier `id`: a vault of the set that does not
/// exist, or a sheet of a character of one of its vaults that does not exist.
pub open spec fn missing_from(
    id: Seq<char>,
    set: VaultSet,
    vaults: Map<Seq<char>, Vault>,
    sheets: Map<Seq<char>, Sheet>,
) -> bool {
    ||| exists|k: int| 0 <= k < set.vaults@.len() && (#[trigger] set.vaults@[k])@ == id && !vaults.contains_key(id)
    ||| !sheets.contains_key(id) && exists|k: int, j: int|
        0 <= k < set.vaults@.len() && vaults.contains_key((#[trigger] set.vaults@[k])@) && 0 <= j
            < vaults[set.vaults@[k]@].characters@.len() && (#[trigger] vaults[set.vaults@[k]@].characters@[j]).2@ == id
}

/// The vaults that can be placed: their rows are not empty, and their sizes fit the board's coordinates.
pub open spec fn vaults_fit(vaults: Map<Seq<char>, Vault>) -> bool {
    forall|id: Seq<char>|
        #[trigger] vaults.contains_key(id) ==> vaults[id].width > 0 && vaults[id].width <= i32::MAX
            && vault_height(vaults[id]) <= i32::MAX
}

/// Every vault of `set` exists with its characters' sheets, has an edge, and fits the board's
/// coordinates with any of its edges on the first open edge, `(4, 4)`; and at least one vault is
/// to be placed.
pub open spec fn set_placeable(set: VaultSet, vaults: Map<Seq<char>, Vault>, sheets: Map<Seq<char>, Sheet>) -> bool {
    &&& set.density > 0
    &&& set.vaults@.len() > 0
    &&& set_complete(set, vaults, sheets)
    &&& forall|k: int|
        0 <= k < set.vaults@.len() ==> {
            let v = vaults[(#[trigger] set.vaults@[k])@];
            &&& v.edges@.len() > 0
            &&& forall|i: int| 0 <= i < v.edges@.len() ==> (#[trigger] placement(v, 4, 4, v.edges@[i])) is Some
        }
}

/// A floor with no tile at all.
pub open spec fn floor_empty(floor: Floor) -> bool {
    forall|a: i32, b: i32| #[trigger] floor.tile(a, b) is None
}

/// Every tile of vault `v`, placed with its corner at `(x, y)`, lies on `floor`.
pub open spec fn vault_present(floor: Floor, v: Vault, x: i32, y: i32) -> bool {
    forall|a: i32, b: i32|
        #[trigger] vault_cell_of(v, x, y, a, b) matches Some(Some(t)) ==> floor.tile(a, b) == Some(t)
}

/// The tile at `(a, b)` of `floor` is one of a vault of `set`, placed somewhere.
pub open spec fn tile_from_set(set: VaultSet, vaults: Map<Seq<char>, Vault>, floor: Floor, a: i32, b: i32) -> bool {
    exists|k: int, x: i32, y: i32|
        0 <= k < set.vaults@.len() && #[trigger] vault_cell_of(vaults[set.vaults@[k]@], x, y, a, b) == Some(
            floor.tile(a, b),
        )
}

/// `(x, y)` is where vault `v` stands when one of its edges lies on the first open edge, `(4, 4)`.
pub open spec fn first_placement(v: Vault, x: i32, y: i32) -> bool {
    exists|i: int| 0 <= i < v.edges@.len() && #[trigger] placement(v, 4, 4, v.edges@[i]) == Some((x, y))
}

proof fn lemma_stamp_keeps_terrain(before: Floor, after: Floor, v: Vault, x: i32, y: i32)
    requires
        !vault_collides(before, v, x, y),
        vault_stamped(before, after, v, x, y),
    ensures
        terrain_kept(before, after),
{
    assert forall|a: i32, b: i32| #[trigger] before.tile(a, b) is Some implies after.tile(a, b) == before.tile(a, b) by {
        assert(after.tile(a, b) == match vault_cell_of(v, x, y, a, b) {
            Some(Some(t)) => Some(t),
            _ => before.tile(a, b),
        });
    }
}

pub open spec fn vault_cell_of(v: Vault, x: i32, y: i32, a: i32, b: i32) -> Option<Option<Tile>> {
    crate::world::vault_cell(v, x, y, a as int, b as int)
}

proof fn lemma_pieces_kept_trans<T>(a: Seq<T>, b: Seq<T>, c: Seq<T>)
    requires
        pieces_kept(a, b),
        pieces_kept(b, c),
    ensures
        pieces_kept(a, c),
{
    assert(c.skip(c.len() - a.len()) == c.skip(c.len() - b.len()).skip(b.len() - a.len()));
}

proof fn lemma_first_fit_skip(floor: Floor, v: Vault, px: i32, py: i32, es: Seq<(i32, i32)>, from: int)
    requires
        0 <= from < es.len(),
        !(placement(v, px, py, es[from]) matches Some((x, y)) && !vault_collides(floor, v, x, y)),
    ensures
        first_fit(floor, v, px, py, es, from) == first_fit(floor, v, px, py, es, from + 1),
{
}

proof fn lemma_first_fit_bounds(floor: Floor, v: Vault, px: i32, py: i32, es: Seq<(i32, i32)>, from: int)
    requires
        0 <= from,
    ensures
        first_fit(floor, v, px, py, es, from) matches Some(i) ==> from <= i < es.len()
            && placement(v, px, py, es[i]) is Some,
    decreases es.len() - from,
{
    if from < es.len() {
        lemma_first_fit_bounds(floor, v, px, py, es, from + 1);
    }
}

/// Where vault `v` goes so that edge `e` lands on `(px, py)`.
fn placement_of(v: &Vault, px: i32, py: i32, e: (i32, i32)) -> (res: Option<(i32, i32)>)
    requires
        v.width > 0,
        v.width <= i32::MAX,
        vault_height(*v) <= i32::MAX,
    ensures
        res == placement(*v, px, py, e),
{
    let x = px as i64 - e.0 as i64;
    let y = py as i64 - e.1 as i64;
    let width = v.width as i64;
    let height = v.height() as i64;
    if x < i32::MIN as i64 || x + width > i32::MAX as i64 || y < i32::MIN as i64 || y + height
        > i32::MAX as i64 {
        return None;
    }
    let mut i: usize = 0;
    while i < v.characters.len()
        invariant
            0 <= i <= v.characters@.len(),
            x == px - e.0,
            y == py - e.1,
            forall|j: int|
                0 <= j < i ==> i32::MIN <= x + (#[trigger] v.characters@[j]).0 <= i32::MAX && i32::MIN
                    <= y + v.characters@[j].1 <= i32::MAX,
        decreases v.characters@.len() - i,
    {
        let cx = x + v.characters[i].0 as i64;
        let cy = y + v.characters[i].1 as i64;
        if cx < i32::MIN as i64 || cx > i32::MAX as i64 || cy < i32::MIN as i64 || cy > i32::MAX as i64 {
            return None;
        }
        i += 1;
    }
    Some((x as i32, y as i32))
}

/// What placing vault `v` at `(px, py)` does, as `place_at_edge` does it with the edge order
/// `es`: `before` becomes `after` and the open edges `edges_before` become `edges_after`. The first
/// edge of `es` at which the vault fits lands on `(px, py)`: its tiles are stamped, its characters
/// join the board, and its other edges, moved to where it stands, become open; where none fits,
/// nothing changes.
pub open spec fn edge_placement(
    before: Manager,
    after: Manager,
    px: i32,
    py: i32,
    v: Vault,
    es: Seq<(i32, i32)>,
    sheets: Map<Seq<char>, Sheet>,
    edges_before: Seq<(i32, i32)>,
    edges_after: Seq<(i32, i32)>,
    res: Result<bool, resource::Error>,
) -> bool {
    placement_parts(
        before.current_floor,
        after.current_floor,
        before.characters@,
        after.characters@,
        px,
        py,
        v,
        es,
        sheets,
        edges_before,
        edges_after,
        res,
    )
}

/// `edge_placement`, over the floor and the pieces before and after.
pub open spec fn placement_parts(
    floor_before: Floor,
    floor_after: Floor,
    pieces_before: Seq<Piece>,
    pieces_after: Seq<Piece>,
    px: i32,
    py: i32,
    v: Vault,
    es: Seq<(i32, i32)>,
    sheets: Map<Seq<char>, Sheet>,
    edges_before: Seq<(i32, i32)>,
    edges_after: Seq<(i32, i32)>,
    res: Result<bool, resource::Error>,
) -> bool {
    match first_fit(floor_before, v, px, py, es, 0) {
        None => res == Ok::<bool, resource::Error>(false) && floor_after == floor_before
            && pieces_after == pieces_before && edges_after == edges_before,
        Some(i) => {
            let (x, y) = placement(v, px, py, es[i])->0;
            &&& vault_stamped(floor_before, floor_after, v, x, y)
            &&& !vault_collides(floor_before, v, x, y)
            &&& match res {
                Ok(placed) => placed && vault_characters_placed(
                    pieces_before,
                    pieces_after,
                    v,
                    x,
                    y,
                    sheets,
                    v.characters@.len() as int,
                ) && edges_after == edges_before + shifted(es.take(i) + es.skip(i + 1), x, y),
                Err(resource::Error::NotFound(id)) => exists|k: int|
                    0 <= k < v.characters@.len() && vault_characters_placed(
                        pieces_before,
                        pieces_after,
                        v,
                        x,
                        y,
                        sheets,
                        k,
                    ) && id@ == v.characters@[k].2@ && !sheets.contains_key(id@),
            }
        },
    }
}

/// One round of generation as it was drawn and what it came to: the open edge drawn, the index
/// in the set of the vault drawn, the order its edges were shuffled into, then the floor, the
/// pieces and the open edges after the round, and whether the vault was placed.
pub struct Round {
    pub edge: (i32, i32),
    pub vault: nat,
    pub order: Seq<(i32, i32)>,
    pub floor: Floor,
    pub pieces: Seq<Piece>,
    pub edges: Multiset<(i32, i32)>,
    pub placed: bool,
}

/// `r` is a round that can follow the floor `floor`, the pieces `pieces` and the open edges
/// `edges`: its edge is one of them and is used up, its vault is one of the set, its edge order
/// holds the vault's edges, and the vault was placed at the edge as `place_at_edge` places it.
#[verifier::opaque]
pub open spec fn round_follows(
    floor: Floor,
    pieces: Seq<Piece>,
    edges: Multiset<(i32, i32)>,
    r: Round,
    set: VaultSet,
    vaults: Map<Seq<char>, Vault>,
    sheets: Map<Seq<char>, Sheet>,
) -> bool {
    let v = vaults[set.vaults@[r.vault as int]@];
    &&& r.vault < set.vaults@.len()
    &&& edges.count(r.edge) > 0
    &&& r.order.to_multiset() == v.edges@.to_multiset()
    &&& exists|added: Seq<(i32, i32)>|
        #[trigger] placement_parts(
            floor,
            r.floor,
            pieces,
            r.pieces,
            r.edge.0,
            r.edge.1,
            v,
            r.order,
            sheets,
            Seq::empty(),
            added,
            Ok::<bool, resource::Error>(r.placed),
        ) && r.edges == edges.remove(r.edge).add(added.to_multiset())
}

/// How many rounds of `rounds` placed their vault.
pub open spec fn placed_count(rounds: Seq<Round>) -> nat
    decreases rounds.len(),
{
    if rounds.len() == 0 {
        0
    } else {
        placed_count(rounds.drop_last()) + if rounds.last().placed { 1nat } else { 0nat }
    }
}

/// The floor, pieces and open edges before round `i` of `rounds`, which started from `floor`,
/// `pieces` and `edges`.
pub open spec fn state_before(
    rounds: Seq<Round>,
    i: int,
    floor: Floor,
    pieces: Seq<Piece>,
    edges: Multiset<(i32, i32)>,
) -> (Floor, Seq<Piece>, Multiset<(i32, i32)>) {
    if i == 0 {
        (floor, pieces, edges)
    } else {
        (rounds[i - 1].floor, rounds[i - 1].pieces, rounds[i - 1].edges)
    }
}

/// `rounds` is a run of generation from `floor`, `pieces` and `edges`: each round follows the
/// one before, and each starts while fewer vaults than the density have been placed.
pub open spec fn generation_run(
    rounds: Seq<Round>,
    floor: Floor,
    pieces: Seq<Piece>,
    edges: Multiset<(i32, i32)>,
    set: VaultSet,
    vaults: Map<Seq<char>, Vault>,
    sheets: Map<Seq<char>, Sheet>,
) -> bool {
    forall|i: int|
        0 <= i < rounds.len() ==> {
            let before = state_before(rounds, i, floor, pieces, edges);
            &&& placed_count(rounds.take(i)) < set.density
            &&& round_follows(before.0, before.1, before.2, #[trigger] rounds[i], set, vaults, sheets)
        }
}

/// `rounds` is a run of generation from the floor `floor0` and the pieces `pieces0`, starting
/// with the one open edge `(4, 4)`, that ends with `floor`, `pieces` and the open edges `edges`,
/// having placed `placed` vaults.
pub open spec fn generated_by(
    rounds: Seq<Round>,
    floor0: Floor,
    pieces0: Seq<Piece>,
    set: VaultSet,
    vaults: Map<Seq<char>, Vault>,
    sheets: Map<Seq<char>, Sheet>,
    floor: Floor,
    pieces: Seq<Piece>,
    edges: Multiset<(i32, i32)>,
    placed: nat,
) -> bool {
    let start = Multiset::<(i32, i32)>::singleton((4i32, 4i32));
    let end = state_before(rounds, rounds.len() as int, floor0, pieces0, start);
    &&& generation_run(rounds, floor0, pieces0, start, set, vaults, sheets)
    &&& floor == end.0
    &&& pieces == end.1
    &&& edges == end.2
    &&& placed_count(rounds) == placed
}

#[verifier::rlimit(60)]
#[verifier::spinoff_prover]
proof fn lemma_run_push(
    rounds: Seq<Round>,
    r: Round,
    floor0: Floor,
    pieces0: Seq<Piece>,
    edges0: Multiset<(i32, i32)>,
    set: VaultSet,
    vaults: Map<Seq<char>, Vault>,
    sheets: Map<Seq<char>, Sheet>,
)
    requires
        generation_run(rounds, floor0, pieces0, edges0, set, vaults, sheets),
        placed_count(rounds) < set.density,
        ({
            let end = state_before(rounds, rounds.len() as int, floor0, pieces0, edges0);
            round_follows(end.0, end.1, end.2, r, set, vaults, sheets)
        }),
    ensures
        generation_run(rounds.push(r), floor0, pieces0, edges0, set, vaults, sheets),
        placed_count(rounds.push(r)) == placed_count(rounds) + if r.placed { 1nat } else { 0nat },
        state_before(rounds.push(r), rounds.len() + 1 as int, floor0, pieces0, edges0) == (r.floor, r.pieces, r.edges),
{
    let t = rounds.push(r);
    assert(t.drop_last() == rounds);
    assert(t.take(rounds.len() as int) == rounds);
    assert forall|i: int| 0 <= i < t.len() implies {
        let before = state_before(t, i, floor0, pieces0, edges0);
        &&& placed_count(t.take(i)) < set.density
        &&& round_follows(before.0, before.1, before.2, #[trigger] t[i], set, vaults, sheets)
    } by {
        if i < rounds.len() {
            assert(t[i] == rounds[i]);
            assert(t.take(i) == rounds.take(i));
            assert(state_before(t, i, floor0, pieces0, edges0) == state_before(rounds, i, floor0, pieces0, edges0));
        }
    }
}

proof fn lemma_swap_last_multiset<A>(s: Seq<A>, j: int)
    requires
        0 <= j < s.len(),
    ensures
        s.update(j, s.last()).update(s.len() - 1, s[j]).to_multiset() == s.to_multiset(),
{
    broadcast use vstd::seq_lib::to_multiset_update;
    broadcast use vstd::multiset::group_multiset_axioms;

    let n = s.len() - 1;
    let s1 = s.update(j, s.last());
    assert(s1[n] == s.last());
    assert(s1.to_multiset() == s.to_multiset().insert(s.last()).remove(s[j]));
    assert(s1.update(n, s[j]).to_multiset() == s1.to_multiset().insert(s[j]).remove(s1[n]));
    assert(s.to_multiset().count(s[j]) > 0) by {
        broadcast use vstd::seq_lib::group_to_multiset_ensures;

        assert(s.contains(s[j]));
    }
    assert(s1.update(n, s[j]).to_multiset() =~= s.to_multiset());
}

/// What generating a floor came to: how many vaults were placed, and the open edges left.
#[derive(Debug)]
pub struct Generated {
    pub vaults_placed: u32,
    pub open_edges: Vec<(i32, i32)>,
}

impl Manager {
    /// Places vault `v` so that the first of the edges `es` at which it fits lands on `(px, py)`,
    /// and adds its other edges, moved to where it stands, to `edges`. Whether one fit.
    ///
    /// # Errors
    ///
    /// Fails as `try_apply_vault` does, with the identifier of a character's missing sheet.
    pub fn place_at_edge(
        &mut self,
        px: i32,
        py: i32,
        v: &Vault,
        es: &Vec<(i32, i32)>,
        sheets: &Resource<crate::character::Sheet>,
        edges: &mut Vec<(i32, i32)>,
    ) -> (res: Result<bool, resource::Error>)
        requires
            old(self).well_formed(),
            sheets.well_formed(),
            v.width > 0,
            v.width <= i32::MAX,
            vault_height(*v) <= i32::MAX,
        ensures
            final(self).well_formed(),
            final(self).location == old(self).location,
            final(self).inventory == old(self).inventory,
            final(self).party == old(self).party,
            edge_placement(*old(self), *final(self), px, py, *v, es@, sheets.view(), old(edges)@, final(edges)@, res),
    {
        let mut i: usize = 0;
        while i < es.len()
            invariant
                0 <= i <= es@.len(),
                self.current_floor == old(self).current_floor,
                self.characters@ == old(self).characters@,
                self.location == old(self).location,
                self.inventory == old(self).inventory,
                self.party == old(self).party,
                edges@ == old(edges)@,
                old(self).well_formed(),
                sheets.well_formed(),
                v.width > 0,
                v.width <= i32::MAX,
                vault_height(*v) <= i32::MAX,
                first_fit(old(self).current_floor, *v, px, py, es@, 0) == first_fit(
                    old(self).current_floor,
                    *v,
                    px,
                    py,
                    es@,
                    i as int,
                ),
            decreases es@.len() - i,
        {
            match placement_of(v, px, py, es[i]) {
                None => {
                    proof {
                        lemma_first_fit_skip(old(self).current_floor, *v, px, py, es@, i as int);
                    }
                },
                Some((x, y)) => {
                    let placed = self.try_apply_vault(x, y, v, sheets);
                    match placed {
                        Ok(true) => {
                            proof {
                                assert(first_fit(old(self).current_floor, *v, px, py, es@, i as int)
                                    == Some(i as int));
                            }
                            self.push_shifted_edges(es, i, x, y, edges);
                            return Ok(true);
                        },
                        Ok(false) => {
                            proof {
                                lemma_first_fit_skip(old(self).current_floor, *v, px, py, es@, i as int);
                            }
                        },
                        Err(e) => {
                            proof {
                                assert(first_fit(old(self).current_floor, *v, px, py, es@, i as int)
                                    == Some(i as int));
                            }
                            return Err(e);
                        },
                    }
                },
            }
            i += 1;
        }
        Ok(false)
    }

    /// Adds the edges `es` but the one at `skip`, moved by `(x, y)`, to `edges`.
    fn push_shifted_edges(&self, es: &Vec<(i32, i32)>, skip: usize, x: i32, y: i32, edges: &mut Vec<(i32, i32)>)
        requires
            skip < es@.len(),
        ensures
            final(edges)@ == old(edges)@ + shifted(es@.take(skip as int) + es@.skip(skip + 1), x, y),
    {
        let ghost others = es@.take(skip as int) + es@.skip(skip + 1);
        assert(others.take(0) == Seq::<(i32, i32)>::empty());
        assert(edges@ == old(edges)@ + shifted(others.take(0), x, y));
        let mut j: usize = 0;
        let mut n: usize = 0;
        while j < es.len()
            invariant
                0 <= j <= es@.len(),
                skip < es@.len(),
                others == es@.take(skip as int) + es@.skip(skip + 1),
                n == if j <= skip { j as int } else { j - 1 },
                n <= others.len(),
                edges@ == old(edges)@ + shifted(others.take(n as int), x, y),
            decreases es@.len() - j,
        {
            if j != skip {
                let e = es[j];
                assert(others[n as int] == e);
                assert(others.take(n + 1).drop_last() == others.take(n as int));
                let ex = x as i64 + e.0 as i64;
                let ey = y as i64 + e.1 as i64;
                if i32::MIN as i64 <= ex && ex <= i32::MAX as i64 && i32::MIN as i64 <= ey && ey <= i32::MAX as i64 {
                    edges.push((ex as i32, ey as i32));
                }
                n += 1;
            }
            j += 1;
        }
        assert(others.take(n as int) == others);
    }

    /// One round of generation, once the generator has drawn: the open edge it drew stands last
    /// in `edges`, `v` is the vault it drew, and `order` is the order it shuffled the vault's
    /// edges into. The drawn edge is taken off the list and `v` is placed there as `place_at_edge`
    /// places it.
    ///
    /// # Errors
    ///
    /// Fails as `place_at_edge` does, with the identifier of a character's missing sheet.
    pub fn generation_round(
        &mut self,
        edges: &mut Vec<(i32, i32)>,
        v: &Vault,
        order: &Vec<(i32, i32)>,
        sheets: &Resource<Sheet>,
    ) -> (res: Result<bool, resource::Error>)
        requires
            old(self).well_formed(),
            sheets.well_formed(),
            v.width > 0,
            v.width <= i32::MAX,
            vault_height(*v) <= i32::MAX,
            old(edges)@.len() > 0,
        ensures
            final(self).well_formed(),
            final(self).location == old(self).location,
            final(self).inventory == old(self).inventory,
            final(self).party == old(self).party,
            edge_placement(
                *old(self),
                *final(self),
                old(edges)@.last().0,
                old(edges)@.last().1,
                *v,
                order@,
                sheets.view(),
                old(edges)@.drop_last(),
                final(edges)@,
                res,
            ),
    {
        let (px, py) = match edges.pop() {
            Some(e) => e,
            None => {
                assert(false);
                return Ok(false);
            },
        };
        self.place_at_edge(px, py, v, order, sheets, edges)
    }

    /// Generates the floor from `seed`: up to `set.density` vaults of the set, chosen at random,
    /// each placed at an open edge of the ones before it, starting from `(4, 4)`.
    ///
    /// Whatever the generator draws, tiles that are not void stay as they are, and the pieces
    /// already on the board stay, behind those of the vaults. Vaults whose coordinates would
    /// leave the range of `i32` are not placed there.
    ///
    /// # Errors
    ///
    /// Fails with the identifier of a vault of the set, or of a sheet of one of its characters,
    /// that does not exist; it cannot fail when they all do.
    #[verifier::rlimit(80)]
    #[verifier::spinoff_prover]
    pub fn generate_floor(
        &mut self,
        seed: &str,
        set: &VaultSet,
        vaults: &Resource<Vault>,
        sheets: &Resource<Sheet>,
    ) -> (res: Result<Generated, resource::Error>)
        requires
            old(self).well_formed(),
            vaults.well_formed(),
            sheets.well_formed(),
            vaults_fit(vaults.view()),
        ensures
            final(self).well_formed(),
            final(self).location == old(self).location,
            final(self).inventory == old(self).inventory,
            final(self).party == old(self).party,
            terrain_kept(old(self).current_floor, final(self).current_floor),
            forall|a: i32, b: i32|
                #[trigger] final(self).current_floor.tile(a, b) != old(self).current_floor.tile(a, b) ==> tile_from_set(
                    *set,
                    vaults.view(),
                    final(self).current_floor,
                    a,
                    b,
                ),
            pieces_kept(old(self).characters@, final(self).characters@),
            set.density == 0 || set.vaults@.len() == 0 ==> res is Ok && final(self).current_floor
                == old(self).current_floor && final(self).characters@ == old(self).characters@,
            set_complete(*set, vaults.view(), sheets.view()) ==> res is Ok,
            res matches Ok(g) ==> g.vaults_placed <= set.density && (g.vaults_placed < set.density ==> (
            g.open_edges@.len() == 0 || set.vaults@.len() == 0)),
            res matches Ok(g) ==> exists|rounds: Seq<Round>|
                #[trigger] generated_by(
                    rounds,
                    old(self).current_floor,
                    old(self).characters@,
                    *set,
                    vaults.view(),
                    sheets.view(),
                    final(self).current_floor,
                    final(self).characters@,
                    g.open_edges@.to_multiset(),
                    g.vaults_placed as nat,
                ),
            set.density == 0 ==> (res matches Ok(g) && g.vaults_placed == 0 && g.open_edges@ == seq![(4i32, 4i32)]),
            set_placeable(*set, vaults.view(), sheets.view()) && floor_empty(old(self).current_floor) ==> (res matches Ok(
                g,
            ) && g.vaults_placed >= 1),
            res matches Err(resource::Error::NotFound(id)) ==> missing_from(
                id@,
                *set,
                vaults.view(),
                sheets.view(),
            ),
            set_placeable(*set, vaults.view(), sheets.view()) && floor_empty(old(self).current_floor) ==> exists|
                k: int,
                x: i32,
                y: i32,
            |
                0 <= k < set.vaults@.len() && #[trigger] first_placement(vaults.view()[set.vaults@[k]@], x, y)
                    && vault_present(final(self).current_floor, vaults.view()[set.vaults@[k]@], x, y),
    {
        let seed_slice = seed_from(seed);
        let mut rng = seeded_rng(seed_slice);
        let mut edges: Vec<(i32, i32)> = vec![(4, 4)];
        let mut n: u32 = 0;
        let ghost works = set_placeable(*set, vaults.view(), sheets.view()) && floor_empty(old(self).current_floor);
        let ghost mut stamped_one: bool = false;
        let ghost mut gk: int = 0;
        let ghost mut gx: i32 = 0;
        let ghost mut gy: i32 = 0;
        let ghost mut rounds: Seq<Round> = Seq::empty();
        proof {
            broadcast use vstd::seq_lib::group_to_multiset_ensures;
            broadcast use vstd::multiset::group_multiset_axioms;

            assert(edges@ =~= Seq::<(i32, i32)>::empty().push((4i32, 4i32)));
            assert(Seq::<(i32, i32)>::empty().to_multiset() =~= Multiset::empty()) by {
                assert(Seq::<(i32, i32)>::empty().to_multiset().len() == 0);
            }
            assert(edges@.to_multiset() =~= Multiset::singleton((4i32, 4i32)));
        }
        assert(old(self).characters@.skip(0) == old(self).characters@);
        while n < set.density
            invariant
                n <= set.density,
                generated_by(
                    rounds,
                    old(self).current_floor,
                    old(self).characters@,
                    *set,
                    vaults.view(),
                    sheets.view(),
                    self.current_floor,
                    self.characters@,
                    edges@.to_multiset(),
                    n as nat,
                ),
                works == (set_placeable(*set, vaults.view(), sheets.view()) && floor_empty(old(self).current_floor)),
                forall|a: i32, b: i32|
                    #[trigger] self.current_floor.tile(a, b) != old(self).current_floor.tile(a, b) ==> tile_from_set(
                        *set,
                        vaults.view(),
                        self.current_floor,
                        a,
                        b,
                    ),
                works && n > 0 ==> stamped_one,
                n == 0 ==> edges@ == seq![(4i32, 4i32)],
                stamped_one ==> 0 <= gk < set.vaults@.len() && first_placement(vaults.view()[set.vaults@[gk]@], gx, gy)
                    && vault_present(self.current_floor, vaults.view()[set.vaults@[gk]@], gx, gy),
                self.well_formed(),
                vaults.well_formed(),
                sheets.well_formed(),
                vaults_fit(vaults.view()),
                self.location == old(self).location,
                self.inventory == old(self).inventory,
                self.party == old(self).party,
                terrain_kept(old(self).current_floor, self.current_floor),
                pieces_kept(old(self).characters@, self.characters@),
                n == 0 || set.vaults@.len() == 0 ==> self.current_floor == old(self).current_floor
                    && self.characters@ == old(self).characters@,
            decreases set.density - n,
        {
            loop
                invariant_except_break
                    works && n == 0 ==> edges@ == seq![(4i32, 4i32)] && self.current_floor == old(self).current_floor,
                    generated_by(
                        rounds,
                        old(self).current_floor,
                        old(self).characters@,
                        *set,
                        vaults.view(),
                        sheets.view(),
                        self.current_floor,
                        self.characters@,
                        edges@.to_multiset(),
                        n as nat,
                    ),
                invariant
                    n < set.density,
                    works == (set_placeable(*set, vaults.view(), sheets.view()) && floor_empty(old(self).current_floor)),
                    forall|a: i32, b: i32|
                        #[trigger] self.current_floor.tile(a, b) != old(self).current_floor.tile(a, b) ==> tile_from_set(
                            *set,
                            vaults.view(),
                            self.current_floor,
                            a,
                            b,
                        ),
                    works && n > 0 ==> stamped_one,
                    stamped_one ==> 0 <= gk < set.vaults@.len() && first_placement(vaults.view()[set.vaults@[gk]@], gx, gy)
                        && vault_present(self.current_floor, vaults.view()[set.vaults@[gk]@], gx, gy),
                    self.well_formed(),
                    vaults.well_formed(),
                    sheets.well_formed(),
                    vaults_fit(vaults.view()),
                    self.location == old(self).location,
                    self.inventory == old(self).inventory,
                    self.party == old(self).party,
                    terrain_kept(old(self).current_floor, self.current_floor),
                    pieces_kept(old(self).characters@, self.characters@),
                    set.vaults@.len() == 0 ==> self.current_floor == old(self).current_floor
                        && self.characters@ == old(self).characters@,
                ensures
                    works ==> stamped_one,
                    generated_by(
                        rounds,
                        old(self).current_floor,
                        old(self).characters@,
                        *set,
                        vaults.view(),
                        sheets.view(),
                        self.current_floor,
                        self.characters@,
                        edges@.to_multiset(),
                        (n + 1) as nat,
                    ),
                decreases edges@.len(),
            {
                let ghost edges_before = edges@;
                let (px, py) = match pick_last(&mut edges, &mut rng) {
                    Some(p) => p,
                    None => {
                        let g = Generated { vaults_placed: n, open_edges: edges };
                        assert(generated_by(
                            rounds,
                            old(self).current_floor,
                            old(self).characters@,
                            *set,
                            vaults.view(),
                            sheets.view(),
                            self.current_floor,
                            self.characters@,
                            g.open_edges@.to_multiset(),
                            g.vaults_placed as nat,
                        ));
                        return Ok(g);
                    },
                };
                let ghost picked = edges@;
                proof {
                    broadcast use vstd::seq_lib::group_to_multiset_ensures;

                    let j = choose|j: int|
                        0 <= j < edges_before.len() && picked == edges_before.update(j, edges_before.last()).update(
                            edges_before.len() - 1,
                            edges_before[j],
                        ) && (px, py) == edges_before[j];
                    lemma_swap_last_multiset(edges_before, j);
                    assert(edges_before.contains(edges_before[j]));
                    assert(picked.to_multiset() == edges_before.to_multiset());
                    assert(edges_before.to_multiset().count((px, py)) > 0);
                    assert(picked.remove(picked.len() - 1) =~= picked.drop_last());
                    assert(picked.drop_last().to_multiset() == picked.to_multiset().remove((px, py)));
                }
                assert(works && n == 0 ==> px == 4 && py == 4);
                assert(edges@.len() > 0 && edges@.last() == (px, py));
                let id = match choose_one(set.vaults.as_slice(), &mut rng) {
                    Some(id) => id,
                    None => {
                        let g = Generated { vaults_placed: n, open_edges: edges };
                        assert(generated_by(
                            rounds,
                            old(self).current_floor,
                            old(self).characters@,
                            *set,
                            vaults.view(),
                            sheets.view(),
                            self.current_floor,
                            self.characters@,
                            g.open_edges@.to_multiset(),
                            g.vaults_placed as nat,
                        ));
                        return Ok(g);
                    },
                };
                let ghost k = choose|k: int| 0 <= k < set.vaults@.len() && set.vaults@[k] == *id;
                let v = match vaults.get(id.as_str()) {
                    Ok(v) => v,
                    Err(e) => {
                        assert(set.vaults@[k]@ == id@);
                        return Err(e);
                    },
                };
                assert(vaults.view().contains_key(id@));
                let mut potential: Vec<(i32, i32)> = Vec::new();
                let mut e: usize = 0;
                while e < v.edges.len()
                    invariant
                        0 <= e <= v.edges@.len(),
                        potential@ == v.edges@.take(e as int),
                    decreases v.edges@.len() - e,
                {
                    potential.push(v.edges[e]);
                    assert(v.edges@.take(e + 1) == v.edges@.take(e as int).push(v.edges@[e as int]));
                    e += 1;
                }
                assert(v.edges@.take(v.edges@.len() as int) == v.edges@);
                let ghost unshuffled = potential@;
                shuffle_edges(&mut potential, &mut rng);
                let ghost floor_before = self.current_floor;
                let ghost chars_before = self.characters@;
                proof {
                    if works && n == 0 {
                        broadcast use vstd::seq_lib::group_to_multiset_ensures;
                        assert(set.vaults@[k]@ == id@);
                        assert(vaults.view()[set.vaults@[k]@] == *v);
                        assert(v.edges@.len() > 0);
                        assert(potential@.len() == v.edges@.len()) by {
                            assert(potential@.to_multiset().len() == v.edges@.to_multiset().len());
                        }
                        assert(potential@.contains(potential@[0])) by {
                            assert(potential@[0] == potential@[0]);
                        }
                        assert(potential@.to_multiset().count(potential@[0]) > 0);
                        assert(unshuffled =~= v.edges@);
                        assert(v.edges@.to_multiset().count(potential@[0]) > 0);
                        assert(v.edges@.contains(potential@[0]));
                        let i = choose|i: int| 0 <= i < v.edges@.len() && v.edges@[i] == potential@[0];
                        assert(placement(*v, 4, 4, v.edges@[i]) is Some);
                        let (x, y) = placement(*v, 4, 4, potential@[0])->0;
                        assert(!vault_collides(floor_before, *v, x, y));
                        assert(first_fit(floor_before, *v, px, py, potential@, 0) == Some(0int));
                    }
                }
                let placed = self.generation_round(&mut edges, v, &potential, sheets);
                proof {
                    if placed is Ok {
                        broadcast use vstd::seq_lib::group_to_multiset_ensures;

                        let done = placed->Ok_0;
                        let mid = picked.drop_last();
                        let fin = edges@;
                        let added = fin.skip(mid.len() as int);
                        assert(fin =~= mid + added) by {
                            if let Some(i) = first_fit(floor_before, *v, px, py, potential@, 0) {
                                let (x, y) = placement(*v, px, py, potential@[i])->0;
                                assert(fin == mid + shifted(potential@.take(i) + potential@.skip(i + 1), x, y));
                            }
                        }
                        assert(placement_parts(
                            floor_before,
                            self.current_floor,
                            chars_before,
                            self.characters@,
                            px,
                            py,
                            *v,
                            potential@,
                            sheets.view(),
                            Seq::empty(),
                            added,
                            Ok::<bool, resource::Error>(done),
                        )) by {
                            if let Some(i) = first_fit(floor_before, *v, px, py, potential@, 0) {
                                let (x, y) = placement(*v, px, py, potential@[i])->0;
                                assert(fin == mid + shifted(potential@.take(i) + potential@.skip(i + 1), x, y));
                                assert(added =~= Seq::<(i32, i32)>::empty() + shifted(
                                    potential@.take(i) + potential@.skip(i + 1),
                                    x,
                                    y,
                                ));
                            } else {
                                assert(added =~= Seq::<(i32, i32)>::empty());
                            }
                        }
                        vstd::seq_lib::lemma_multiset_commutative(mid, added);
                        assert(unshuffled =~= v.edges@);
                        assert(set.vaults@[k]@ == id@);
                        let r = Round {
                            edge: (px, py),
                            vault: k as nat,
                            order: potential@,
                            floor: self.current_floor,
                            pieces: self.characters@,
                            edges: fin.to_multiset(),
                            placed: done,
                        };
                        assert(round_follows(
                            floor_before,
                            chars_before,
                            edges_before.to_multiset(),
                            r,
                            *set,
                            vaults.view(),
                            sheets.view(),
                        )) by {
                            reveal(round_follows);
                            assert(vaults.view()[set.vaults@[k]@] == *v);
                            assert(potential@.to_multiset() == v.edges@.to_multiset());
                            assert(edges_before.to_multiset().count(r.edge) > 0);
                            assert(fin.to_multiset() == mid.to_multiset().add(added.to_multiset()));
                            assert(mid.to_multiset() == edges_before.to_multiset().remove(r.edge));
                            assert(r.edges == edges_before.to_multiset().remove(r.edge).add(added.to_multiset()));
                            assert(placement_parts(
                                floor_before,
                                r.floor,
                                chars_before,
                                r.pieces,
                                r.edge.0,
                                r.edge.1,
                                vaults.view()[set.vaults@[r.vault as int]@],
                                r.order,
                                sheets.view(),
                                Seq::empty(),
                                added,
                                Ok::<bool, resource::Error>(r.placed),
                            ));
                        }
                        lemma_run_push(
                            rounds,
                            r,
                            old(self).current_floor,
                            old(self).characters@,
                            Multiset::<(i32, i32)>::singleton((4i32, 4i32)),
                            *set,
                            vaults.view(),
                            sheets.view(),
                        );
                        rounds = rounds.push(r);
                    }
                }
                proof {
                    match first_fit(floor_before, *v, px, py, potential@, 0) {
                        None => {},
                        Some(i) => {
                            lemma_first_fit_bounds(floor_before, *v, px, py, potential@, 0);
                            let (x, y) = placement(*v, px, py, potential@[i])->0;
                            lemma_stamp_keeps_terrain(floor_before, self.current_floor, *v, x, y);
                            assert forall|a: i32, b: i32|
                                #[trigger] self.current_floor.tile(a, b) != old(self).current_floor.tile(a, b)
                                    implies tile_from_set(*set, vaults.view(), self.current_floor, a, b) by {
                                assert(self.current_floor.tile(a, b) == match crate::world::vault_cell(*v, x, y, a as int, b as int) {
                                    Some(Some(t)) => Some(t),
                                    _ => floor_before.tile(a, b),
                                });
                                if vault_cell_of(*v, x, y, a, b) matches Some(Some(t)) {
                                    assert(vaults.view()[set.vaults@[k]@] == *v);
                                    assert(vault_cell_of(vaults.view()[set.vaults@[k]@], x, y, a, b) == Some(
                                        self.current_floor.tile(a, b),
                                    ));
                                } else {
                                    assert(floor_before.tile(a, b) != old(self).current_floor.tile(a, b));
                                    assert(tile_from_set(*set, vaults.view(), floor_before, a, b));
                                    let (k2, x2, y2) = choose|k2: int, x2: i32, y2: i32|
                                        0 <= k2 < set.vaults@.len() && #[trigger] vault_cell_of(
                                            vaults.view()[set.vaults@[k2]@],
                                            x2,
                                            y2,
                                            a,
                                            b,
                                        ) == Some(floor_before.tile(a, b));
                                    assert(vault_cell_of(vaults.view()[set.vaults@[k2]@], x2, y2, a, b) == Some(
                                        self.current_floor.tile(a, b),
                                    ));
                                }
                            }
                            if stamped_one {
                                assert(vault_present(floor_before, vaults.view()[set.vaults@[gk]@], gx, gy));
                                assert forall|a: i32, b: i32|
                                    #[trigger] vault_cell_of(vaults.view()[set.vaults@[gk]@], gx, gy, a, b) matches Some(Some(t))
                                        ==> self.current_floor.tile(a, b) == Some(t) by {
                                    if floor_before.tile(a, b) is Some {
                                        assert(self.current_floor.tile(a, b) == floor_before.tile(a, b));
                                    }
                                }
                            }
                            assert(self.characters@.skip(self.characters@.len() - chars_before.len())
                                == chars_before);
                            lemma_pieces_kept_trans(old(self).characters@, chars_before, self.characters@);
                        },
                    }
                    assert(set.vaults@[k]@ == id@);
                }
                match placed {
                    Ok(true) => {
                        proof {
                            if works && n == 0 {
                                let (x, y) = placement(*v, 4, 4, potential@[0])->0;
                                let i = choose|i: int| 0 <= i < v.edges@.len() && v.edges@[i] == potential@[0];
                                assert(placement(*v, 4, 4, v.edges@[i]) == Some((x, y)));
                                assert(first_placement(vaults.view()[set.vaults@[k]@], x, y));
                                assert forall|a: i32, b: i32|
                                    #[trigger] vault_cell_of(vaults.view()[set.vaults@[k]@], x, y, a, b) matches Some(Some(t))
                                        ==> self.current_floor.tile(a, b) == Some(t) by {
                                    assert(self.current_floor.tile(a, b) == match crate::world::vault_cell(*v, x, y, a as int, b as int) {
                                        Some(Some(t)) => Some(t),
                                        _ => floor_before.tile(a, b),
                                    });
                                }
                                stamped_one = true;
                                gk = k;
                                gx = x;
                                gy = y;
                            }
                        }
                        break;
                    },
                    Ok(false) => {},
                    Err(e) => return Err(e),
                }
            }
            n += 1;
        }
        let g = Generated { vaults_placed: n, open_edges: edges };
        assert(generated_by(
            rounds,
            old(self).current_floor,
            old(self).characters@,
            *set,
            vaults.view(),
            sheets.view(),
            self.current_floor,
            self.characters@,
            g.open_edges@.to_multiset(),
            g.vaults_placed as nat,
        ));
        Ok(g)
    }
}

} // verus!
