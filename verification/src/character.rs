//! Character pieces, their sheets and their statistics.

use crate::nouns::Nouns;
use crate::Aut;
use std::rc::Rc;
use vstd::prelude::*;
use vstd::std_specs::ops::{AddSpecImpl, DivSpecImpl, MulSpecImpl, SubSpecImpl};

verus! {

/// A piece's six statistics.
#[derive(Clone, Copy, Debug, PartialEq, Eq, Structural)]
pub struct Stats {
    /// Health, or HP; Heart Points
    pub heart: u16,
    /// Magic, or SP; Soul Points
    pub soul: u16,
    /// Bonus damage applied to physical attacks.
    pub power: u16,
    /// Damage reduction when recieving physical attacks.
    pub defense: u16,
    /// Bonus damage applied to magical attacks.
    pub magic: u16,
    /// Damage reduction when recieving magical attacks.
    /// Also makes harmful spells more likely to fail.
    pub resistance: u16,
}

impl Default for Stats {
    fn default() -> (s: Stats)
        ensures
            s == stats_splat(0),
    {
        Stats { heart: 0, soul: 0, power: 0, defense: 0, magic: 0, resistance: 0 }
    }
}

/// Stats with every field set to `v`.
pub open spec fn stats_splat(v: u16) -> Stats {
    Stats { heart: v, soul: v, power: v, defense: v, magic: v, resistance: v }
}

/// Applies `f` to each pair of corresponding fields.
pub open spec fn stats_zip(a: Stats, b: Stats, f: spec_fn(u16, u16) -> int) -> Stats {
    Stats {
        heart: f(a.heart, b.heart) as u16,
        soul: f(a.soul, b.soul) as u16,
        power: f(a.power, b.power) as u16,
        defense: f(a.defense, b.defense) as u16,
        magic: f(a.magic, b.magic) as u16,
        resistance: f(a.resistance, b.resistance) as u16,
    }
}

/// Whether `f` gives a `u16` for each pair of corresponding fields.
pub open spec fn stats_zip_fits(a: Stats, b: Stats, f: spec_fn(u16, u16) -> int) -> bool {
    &&& 0 <= f(a.heart, b.heart) <= u16::MAX
    &&& 0 <= f(a.soul, b.soul) <= u16::MAX
    &&& 0 <= f(a.power, b.power) <= u16::MAX
    &&& 0 <= f(a.defense, b.defense) <= u16::MAX
    &&& 0 <= f(a.magic, b.magic) <= u16::MAX
    &&& 0 <= f(a.resistance, b.resistance) <= u16::MAX
}

pub open spec fn plus(x: u16, y: u16) -> int {
    x + y
}

pub open spec fn minus(x: u16, y: u16) -> int {
    x - y
}

pub open spec fn times(x: u16, y: u16) -> int {
    x * y
}

pub open spec fn over(x: u16, y: u16) -> int {
    (x / y) as int
}

impl AddSpecImpl for Stats {
    open spec fn obeys_add_spec() -> bool {
        true
    }

    open spec fn add_req(self, rhs: Stats) -> bool {
        stats_zip_fits(self, rhs, |x: u16, y: u16| plus(x, y))
    }

    open spec fn add_spec(self, rhs: Stats) -> Stats {
        stats_zip(self, rhs, |x: u16, y: u16| plus(x, y))
    }
}

impl std::ops::Add for Stats {
    type Output = Stats;

    fn add(self, rhs: Stats) -> (res: Stats) {
        Stats {
            heart: self.heart + rhs.heart,
            soul: self.soul + rhs.soul,
            power: self.power + rhs.power,
            defense: self.defense + rhs.defense,
            magic: self.magic + rhs.magic,
            resistance: self.resistance + rhs.resistance,
        }
    }
}

impl SubSpecImpl for Stats {
    open spec fn obeys_sub_spec() -> bool {
        true
    }

    open spec fn sub_req(self, rhs: Stats) -> bool {
        stats_zip_fits(self, rhs, |x: u16, y: u16| minus(x, y))
    }

    open spec fn sub_spec(self, rhs: Stats) -> Stats {
        stats_zip(self, rhs, |x: u16, y: u16| minus(x, y))
    }
}

impl std::ops::Sub for Stats {
    type Output = Stats;

    fn sub(self, rhs: Stats) -> (res: Stats) {
        Stats {
            heart: self.heart - rhs.heart,
            soul: self.soul - rhs.soul,
            power: self.power - rhs.power,
            defense: self.defense - rhs.defense,
            magic: self.magic - rhs.magic,
            resistance: self.resistance - rhs.resistance,
        }
    }
}

impl MulSpecImpl<u16> for Stats {
    open spec fn obeys_mul_spec() -> bool {
        true
    }

    open spec fn mul_req(self, rhs: u16) -> bool {
        stats_zip_fits(self, stats_splat(rhs), |x: u16, y: u16| times(x, y))
    }

    open spec fn mul_spec(self, rhs: u16) -> Stats {
        stats_zip(self, stats_splat(rhs), |x: u16, y: u16| times(x, y))
    }
}

impl std::ops::Mul<u16> for Stats {
    type Output = Stats;

    fn mul(self, rhs: u16) -> (res: Stats) {
        Stats {
            heart: self.heart * rhs,
            soul: self.soul * rhs,
            power: self.power * rhs,
            defense: self.defense * rhs,
            magic: self.magic * rhs,
            resistance: self.resistance * rhs,
        }
    }
}

impl MulSpecImpl for Stats {
    open spec fn obeys_mul_spec() -> bool {
        true
    }

    open spec fn mul_req(self, rhs: Stats) -> bool {
        stats_zip_fits(self, rhs, |x: u16, y: u16| times(x, y))
    }

    open spec fn mul_spec(self, rhs: Stats) -> Stats {
        stats_zip(self, rhs, |x: u16, y: u16| times(x, y))
    }
}

impl std::ops::Mul for Stats {
    type Output = Stats;

    fn mul(self, rhs: Stats) -> (res: Stats) {
        Stats {
            heart: self.heart * rhs.heart,
            soul: self.soul * rhs.soul,
            power: self.power * rhs.power,
            defense: self.defense * rhs.defense,
            magic: self.magic * rhs.magic,
            resistance: self.resistance * rhs.resistance,
        }
    }
}

impl DivSpecImpl<u16> for Stats {
    open spec fn obeys_div_spec() -> bool {
        true
    }

    open spec fn div_req(self, rhs: u16) -> bool {
        rhs != 0
    }

    open spec fn div_spec(self, rhs: u16) -> Stats {
        stats_zip(self, stats_splat(rhs), |x: u16, y: u16| over(x, y))
    }
}

impl std::ops::Div<u16> for Stats {
    type Output = Stats;

    fn div(self, rhs: u16) -> (res: Stats) {
        Stats {
            heart: self.heart / rhs,
            soul: self.soul / rhs,
            power: self.power / rhs,
            defense: self.defense / rhs,
            magic: self.magic / rhs,
            resistance: self.resistance / rhs,
        }
    }
}

/// The sum of one field over a list of stats.
pub open spec fn field_sum(s: Seq<Stats>, field: spec_fn(Stats) -> u16) -> int
    decreases s.len(),
{
    if s.len() == 0 {
        0
    } else {
        field_sum(s.drop_last(), field) + field(s.last())
    }
}

pub open spec fn heart_of(s: Stats) -> u16 {
    s.heart
}

pub open spec fn soul_of(s: Stats) -> u16 {
    s.soul
}

pub open spec fn power_of(s: Stats) -> u16 {
    s.power
}

pub open spec fn defense_of(s: Stats) -> u16 {
    s.defense
}

pub open spec fn magic_of(s: Stats) -> u16 {
    s.magic
}

pub open spec fn resistance_of(s: Stats) -> u16 {
    s.resistance
}

/// The field-wise sum of a list of stats, as integers.
pub open spec fn stats_total(s: Seq<Stats>) -> (int, int, int, int, int, int) {
    (
        field_sum(s, |t: Stats| heart_of(t)),
        field_sum(s, |t: Stats| soul_of(t)),
        field_sum(s, |t: Stats| power_of(t)),
        field_sum(s, |t: Stats| defense_of(t)),
        field_sum(s, |t: Stats| magic_of(t)),
        field_sum(s, |t: Stats| resistance_of(t)),
    )
}

/// Whether the field-wise sum of a list of stats fits in `Stats`.
pub open spec fn stats_total_fits(s: Seq<Stats>) -> bool {
    let t = stats_total(s);
    &&& t.0 <= u16::MAX
    &&& t.1 <= u16::MAX
    &&& t.2 <= u16::MAX
    &&& t.3 <= u16::MAX
    &&& t.4 <= u16::MAX
    &&& t.5 <= u16::MAX
}

proof fn lemma_field_sum_monotone(s: Seq<Stats>, field: spec_fn(Stats) -> u16, i: int)
    requires
        0 <= i <= s.len(),
    ensures
        0 <= field_sum(s.take(i), field) <= field_sum(s, field),
    decreases s.len(),
{
    if s.len() > 0 {
        if i == s.len() {
            assert(s.take(i) == s);
            lemma_field_sum_monotone(s.drop_last(), field, i - 1);
        } else {
            assert(s.drop_last().take(i) == s.take(i));
            lemma_field_sum_monotone(s.drop_last(), field, i);
        }
    }
}

/// The field-wise sum of `stats`, which must not overflow.
pub fn sum_stats(stats: &[Stats]) -> (res: Stats)
    requires
        stats_total_fits(stats@),
    ensures
        res.heart == stats_total(stats@).0,
        res.soul == stats_total(stats@).1,
        res.power == stats_total(stats@).2,
        res.defense == stats_total(stats@).3,
        res.magic == stats_total(stats@).4,
        res.resistance == stats_total(stats@).5,
{
    let mut total = Stats::default();
    let mut i: usize = 0;
    while i < stats.len()
        invariant
            0 <= i <= stats@.len(),
            stats_total_fits(stats@),
            total.heart == stats_total(stats@.take(i as int)).0,
            total.soul == stats_total(stats@.take(i as int)).1,
            total.power == stats_total(stats@.take(i as int)).2,
            total.defense == stats_total(stats@.take(i as int)).3,
            total.magic == stats_total(stats@.take(i as int)).4,
            total.resistance == stats_total(stats@.take(i as int)).5,
        decreases stats@.len() - i,
    {
        let ghost next = stats@.take(i + 1);
        assert(next.drop_last() == stats@.take(i as int));
        assert(next.last() == stats@[i as int]);
        proof {
            lemma_field_sum_monotone(stats@, |t: Stats| heart_of(t), i + 1);
            lemma_field_sum_monotone(stats@, |t: Stats| soul_of(t), i + 1);
            lemma_field_sum_monotone(stats@, |t: Stats| power_of(t), i + 1);
            lemma_field_sum_monotone(stats@, |t: Stats| defense_of(t), i + 1);
            lemma_field_sum_monotone(stats@, |t: Stats| magic_of(t), i + 1);
            lemma_field_sum_monotone(stats@, |t: Stats| resistance_of(t), i + 1);
        }
        total = total + stats[i];
        i += 1;
    }
    assert(stats@.take(stats@.len() as int) == stats@);
    total
}

/// The stats of a piece after its buffs and debuffs, and those buffs and debuffs.
#[derive(Clone, Copy, Debug, PartialEq, Eq, Structural)]
pub struct StatOutcomes {
    pub stats: Stats,
    pub buffs: Stats,
    pub debuffs: Stats,
}

/// `base - debuff + buff`, clamped to the range of `u16` after each step.
pub open spec fn apply_modifiers(base: u16, buff: u16, debuff: u16) -> u16 {
    let lowered = if base >= debuff { (base - debuff) as u16 } else { 0u16 };
    if lowered + buff > u16::MAX { u16::MAX } else { (lowered + buff) as u16 }
}

/// Which side of a conflict a piece is on.
#[derive(Clone, Copy, Debug, PartialEq, Eq, Structural)]
pub enum Alliance {
    Friendly,
    Enemy,
}

/// Persistent information about a piece.
#[derive(Debug)]
pub struct Sheet {
    /// The identifier of the resource this sheet originated from.
    pub id: String,
    /// Note that this includes the character's name.
    pub nouns: Nouns,
    pub level: u32,
    pub experience: u32,
    pub stats: Stats,
    pub abilities: Vec<String>,
    /// Script to decide on an action from a list of considerations.
    pub on_consider: String,
}

/// A copy of a list of strings.
pub fn clone_strings(v: &Vec<String>) -> (res: Vec<String>)
    ensures
        res@ == v@,
{
    let mut res: Vec<String> = Vec::new();
    let mut i: usize = 0;
    while i < v.len()
        invariant
            0 <= i <= v@.len(),
            res@ == v@.take(i as int),
        decreases v@.len() - i,
    {
        res.push(v[i].clone());
        assert(v@.take(i + 1) == v@.take(i as int).push(v@[i as int]));
        i += 1;
    }
    assert(v@.take(v@.len() as int) == v@);
    res
}

impl Sheet {
    /// Whether two sheets hold the same information.
    pub open spec fn same(&self, other: Sheet) -> bool {
        &&& self.id == other.id
        &&& self.nouns == other.nouns
        &&& self.level == other.level
        &&& self.experience == other.experience
        &&& self.stats == other.stats
        &&& self.abilities@ == other.abilities@
        &&& self.on_consider == other.on_consider
    }
}

impl Clone for Sheet {
    fn clone(&self) -> (res: Sheet)
        ensures
            res.same(*self),
    {
        let abilities = clone_strings(&self.abilities);
        Sheet {
            id: self.id.clone(),
            nouns: self.nouns.clone(),
            level: self.level,
            experience: self.experience,
            stats: self.stats,
            abilities,
            on_consider: self.on_consider.clone(),
        }
    }
}

/// A character on the board.
#[derive(Debug)]
pub struct Piece {
    pub sheet: Sheet,
    pub x: i32,
    pub y: i32,
    /// How far the piece is from being in a "destroyed" state.
    pub hp: i32,
    pub sp: i32,
    /// How much time has to pass until the piece is allowed to take an action.
    pub action_delay: Aut,
    pub alliance: Alliance,
    pub player_controlled: bool,
}

impl Piece {
    /// Whether two pieces hold the same information.
    pub open spec fn same(&self, other: Piece) -> bool {
        &&& self.sheet.same(other.sheet)
        &&& self.x == other.x
        &&& self.y == other.y
        &&& self.hp == other.hp
        &&& self.sp == other.sp
        &&& self.action_delay == other.action_delay
        &&& self.alliance == other.alliance
        &&& self.player_controlled == other.player_controlled
    }
}

impl Clone for Piece {
    fn clone(&self) -> (res: Piece)
        ensures
            res.same(*self),
    {
        Piece {
            sheet: self.sheet.clone(),
            x: self.x,
            y: self.y,
            hp: self.hp,
            sp: self.sp,
            action_delay: self.action_delay,
            alliance: self.alliance,
            player_controlled: self.player_controlled,
        }
    }
}

impl Piece {
    /// A piece at the origin with full health and magic, ready to act.
    pub fn new(sheet: Sheet) -> (res: Piece)
        ensures
            res.sheet == sheet,
            res.hp == sheet.stats.heart,
            res.sp == sheet.stats.soul,
            res.x == 0,
            res.y == 0,
            res.action_delay == 0,
            res.alliance == Alliance::Enemy,
            !res.player_controlled,
    {
        let hp = sheet.stats.heart as i32;
        let sp = sheet.stats.soul as i32;
        Piece {
            sheet,
            x: 0,
            y: 0,
            hp,
            sp,
            action_delay: 0,
            alliance: Alliance::Enemy,
            player_controlled: false,
        }
    }

    /// The piece's stats once the given debuffs (one per attached component) are applied.
    pub fn stat_outcomes(&self, debuffs: &[Stats]) -> (res: StatOutcomes)
        requires
            stats_total_fits(debuffs@),
        ensures
            res.buffs == stats_splat(0),
            res.debuffs.heart == stats_total(debuffs@).0,
            res.debuffs.soul == stats_total(debuffs@).1,
            res.debuffs.power == stats_total(debuffs@).2,
            res.debuffs.defense == stats_total(debuffs@).3,
            res.debuffs.magic == stats_total(debuffs@).4,
            res.debuffs.resistance == stats_total(debuffs@).5,
            res.stats == stats_zip3(self.sheet.stats, res.buffs, res.debuffs),
    {
        let buffs = Stats::default();
        let debuffs = sum_stats(debuffs);
        let base = self.sheet.stats;
        let stats = Stats {
            heart: base.heart.saturating_sub(debuffs.heart).saturating_add(buffs.heart),
            soul: base.soul.saturating_sub(debuffs.soul).saturating_add(buffs.soul),
            power: base.power.saturating_sub(debuffs.power).saturating_add(buffs.power),
            defense: base.defense.saturating_sub(debuffs.defense).saturating_add(buffs.defense),
            magic: base.magic.saturating_sub(debuffs.magic).saturating_add(buffs.magic),
            resistance: base.resistance.saturating_sub(debuffs.resistance).saturating_add(
                buffs.resistance,
            ),
        };
        StatOutcomes { stats, buffs, debuffs }
    }

    /// The piece's stats once the given debuffs are applied.
    pub fn stats(&self, debuffs: &[Stats]) -> (res: Stats)
        requires
            stats_total_fits(debuffs@),
        ensures
            res == self.stat_outcomes_spec(debuffs@),
    {
        self.stat_outcomes(debuffs).stats
    }

    /// The stats that `stat_outcomes` gives for the given debuffs.
    pub open spec fn stat_outcomes_spec(&self, debuffs: Seq<Stats>) -> Stats {
        let t = stats_total(debuffs);
        stats_zip3(
            self.sheet.stats,
            stats_splat(0),
            Stats {
                heart: t.0 as u16,
                soul: t.1 as u16,
                power: t.2 as u16,
                defense: t.3 as u16,
                magic: t.4 as u16,
                resistance: t.5 as u16,
            },
        )
    }
}

/// Each field of `base`, lowered by `debuffs` and raised by `buffs` (see `apply_modifiers`).
pub open spec fn stats_zip3(base: Stats, buffs: Stats, debuffs: Stats) -> Stats {
    Stats {
        heart: apply_modifiers(base.heart, buffs.heart, debuffs.heart),
        soul: apply_modifiers(base.soul, buffs.soul, debuffs.soul),
        power: apply_modifiers(base.power, buffs.power, debuffs.power),
        defense: apply_modifiers(base.defense, buffs.defense, debuffs.defense),
        magic: apply_modifiers(base.magic, buffs.magic, debuffs.magic),
        resistance: apply_modifiers(base.resistance, buffs.resistance, debuffs.resistance),
    }
}

/// Marks a field held in a `RefCell` that is archived as the value it holds.
#[derive(Clone, Copy, Debug, Default)]
pub struct InlineRefCell;

/// A shared handle to a piece.
#[derive(Debug)]
pub struct Ref(Rc<Piece>);

/// `Rc::clone`: another pointer to the same allocation, so it points to the same value.
#[verifier::external_body]
fn share(rc: &Rc<Piece>) -> (res: Rc<Piece>)
    ensures
        *res == **rc,
{
    Rc::clone(rc)
}

/// `Rc::ptr_eq`: whether two pointers point to the same allocation. Pointers to one allocation
/// point to the same value; which allocation a pointer holds is an address, not stated here.
#[verifier::external_body]
fn same_allocation(a: &Rc<Piece>, b: &Rc<Piece>) -> (res: bool)
    ensures
        res ==> **a == **b,
{
    Rc::ptr_eq(a, b)
}

impl Clone for Ref {
    fn clone(&self) -> (res: Ref)
        ensures
            res.piece() == self.piece(),
    {
        Ref(share(&self.0))
    }
}

impl Ref {
    pub closed spec fn piece(&self) -> Piece {
        *self.0
    }

    pub fn new(character: Piece) -> (res: Ref)
        ensures
            res.piece() == character,
    {
        Ref(Rc::new(character))
    }

    /// Whether both handles share one piece: handles are told apart by the piece they share,
    /// not by its value, so two handles made apart from equal pieces are not the same.
    pub fn same_as(&self, other: &Ref) -> (res: bool)
        ensures
            res ==> self.piece() == other.piece(),
    {
        same_allocation(&self.0, &other.0)
    }

    /// The piece this handle refers to.
    pub fn borrow(&self) -> (res: &Piece)
        ensures
            *res == self.piece(),
    {
        &self.0
    }
}

/// The statistic named `name` set to `v` in `s`; `None` for a name that is not a statistic.
pub open spec fn with_field(s: Stats, name: Seq<char>, v: u16) -> Option<Stats> {
    if name == "heart"@ {
        Some(Stats { heart: v, ..s })
    } else if name == "soul"@ {
        Some(Stats { soul: v, ..s })
    } else if name == "power"@ {
        Some(Stats { power: v, ..s })
    } else if name == "defense"@ {
        Some(Stats { defense: v, ..s })
    } else if name == "magic"@ {
        Some(Stats { magic: v, ..s })
    } else if name == "resistance"@ {
        Some(Stats { resistance: v, ..s })
    } else {
        None
    }
}

/// The statistics that the named values set one after the other, from zero; the first name that
/// is not a statistic, where there is one.
pub open spec fn stats_from(fields: Seq<(Seq<char>, u16)>) -> Result<Stats, Seq<char>>
    decreases fields.len(),
{
    if fields.len() == 0 {
        Ok(stats_splat(0))
    } else {
        match stats_from(fields.drop_last()) {
            Err(name) => Err(name),
            Ok(s) => match with_field(s, fields.last().0, fields.last().1) {
                Some(t) => Ok(t),
                None => Err(fields.last().0),
            },
        }
    }
}

pub open spec fn field_views(fields: Seq<(&str, u16)>) -> Seq<(Seq<char>, u16)> {
    fields.map_values(|f: (&str, u16)| (f.0@, f.1))
}

impl Stats {
    /// Statistics from named values, as scripts write them (`{ heart = 10, power = 2 }`); the
    /// ones not named are 0.
    ///
    /// # Errors
    ///
    /// Fails with the first name that is not a statistic.
    pub fn from_fields(fields: &[(&str, u16)]) -> (res: Result<Stats, String>)
        ensures
            match (res, stats_from(field_views(fields@))) {
                (Ok(s), Ok(t)) => s == t,
                (Err(name), Err(n)) => name@ == n,
                _ => false,
            },
    {
        let mut s = Stats { heart: 0, soul: 0, power: 0, defense: 0, magic: 0, resistance: 0 };
        let mut i: usize = 0;
        while i < fields.len()
            invariant
                0 <= i <= fields@.len(),
                stats_from(field_views(fields@.take(i as int))) == Ok::<Stats, Seq<char>>(s),
            decreases fields@.len() - i,
        {
            let (name, v) = fields[i];
            assert(field_views(fields@.take(i + 1)).drop_last() == field_views(fields@.take(i as int)));
            assert(field_views(fields@.take(i + 1)).last() == (name@, v));
            if crate::gui::is_word(name, "heart") {
                s.heart = v;
            } else if crate::gui::is_word(name, "soul") {
                s.soul = v;
            } else if crate::gui::is_word(name, "power") {
                s.power = v;
            } else if crate::gui::is_word(name, "defense") {
                s.defense = v;
            } else if crate::gui::is_word(name, "magic") {
                s.magic = v;
            } else if crate::gui::is_word(name, "resistance") {
                s.resistance = v;
            } else {
                proof {
                    let views = field_views(fields@);
                    assert(views.take(i + 1) == field_views(fields@.take(i + 1)));
                    lemma_stats_from_error(views, i as int, views.len() as int);
                    assert(views.take(views.len() as int) == views);
                }
                return Err(String::from_str(name));
            }
            i += 1;
        }
        assert(fields@.take(fields@.len() as int) == fields@);
        Ok(s)
    }
}

proof fn lemma_stats_from_error(fields: Seq<(Seq<char>, u16)>, k: int, m: int)
    requires
        0 <= k < m <= fields.len(),
        stats_from(fields.take(k + 1)) is Err,
    ensures
        stats_from(fields.take(m)) == stats_from(fields.take(k + 1)),
    decreases m,
{
    if m > k + 1 {
        lemma_stats_from_error(fields, k, m - 1);
        assert(fields.take(m).drop_last() == fields.take(m - 1));
    }
}

} // verus!
