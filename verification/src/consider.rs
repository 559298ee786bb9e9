//! Enumerate and assign scores to potential actions.
//!
//! This is mainly for enemy logic, but may have some use for player UI,
//! such as showing a sorted list of potential spell targets rather than a cursor.

use crate::character::Ref;
use crate::world::Action;
use vstd::prelude::*;

verus! {

/// Rough approximations of an action's result.
/// Used to estimate the outcome of a certain action.
///
/// It's worth noting that this is intentionally a VERY rough estimation.
/// Many effects and outcomes will be ignored or oversimplified by this system.
#[derive(Debug)]
pub enum Heuristic {
    Damage { target: Ref, amount: u32 },
    /// Reflects a rough estimation of the lasting effects of a debuff from this attack.
    /// `amount` should be considered a measure of stat loss, even if the debuff is more
    /// complicated than a simple stat loss.
    Debuff { target: Ref, amount: u32 },
    Move { x: i32, y: i32 },
}

impl Clone for Heuristic {
    fn clone(&self) -> (res: Heuristic)
        ensures
            res.same(*self),
    {
        match self {
            Heuristic::Damage { target, amount } => Heuristic::Damage { target: target.clone(), amount: *amount },
            Heuristic::Debuff { target, amount } => Heuristic::Debuff { target: target.clone(), amount: *amount },
            Heuristic::Move { x, y } => Heuristic::Move { x: *x, y: *y },
        }
    }
}

impl Heuristic {
    /// Whether two heuristics are of one variant, with the same fields, targets compared by
    /// the pieces they refer to.
    pub open spec fn same(self, other: Heuristic) -> bool {
        match (self, other) {
            (Heuristic::Damage { target: t1, amount: a1 }, Heuristic::Damage { target: t2, amount: a2 }) =>
                t1.piece() == t2.piece() && a1 == a2,
            (Heuristic::Debuff { target: t1, amount: a1 }, Heuristic::Debuff { target: t2, amount: a2 }) =>
                t1.piece() == t2.piece() && a1 == a2,
            (Heuristic::Move { x: x1, y: y1 }, Heuristic::Move { x: x2, y: y2 }) => x1 == x2 && y1 == y2,
            _ => false,
        }
    }

    /// The horizontal position of a move; `None` for the other variants.
    pub fn x(&self) -> (res: Option<i32>)
        ensures
            res == (match *self {
                Heuristic::Move { x, .. } => Some(x),
                _ => None::<i32>,
            }),
    {
        match self {
            Heuristic::Move { x, .. } => Some(*x),
            Heuristic::Damage { .. } | Heuristic::Debuff { .. } => None,
        }
    }

    /// The vertical position of a move; `None` for the other variants.
    pub fn y(&self) -> (res: Option<i32>)
        ensures
            res == (match *self {
                Heuristic::Move { y, .. } => Some(y),
                _ => None::<i32>,
            }),
    {
        match self {
            Heuristic::Move { y, .. } => Some(*y),
            Heuristic::Damage { .. } | Heuristic::Debuff { .. } => None,
        }
    }

    /// The target of damage or a debuff; `None` for a move.
    pub fn target(&self) -> (res: Option<Ref>)
        ensures
            match *self {
                Heuristic::Damage { target, .. } | Heuristic::Debuff { target, .. } =>
                    res matches Some(r) && r.piece() == target.piece(),
                Heuristic::Move { .. } => res is None,
            },
    {
        match self {
            Heuristic::Damage { target, .. } | Heuristic::Debuff { target, .. } => Some(target.clone()),
            Heuristic::Move { .. } => None,
        }
    }

    /// The amount of damage or of a debuff; `None` for a move.
    pub fn amount(&self) -> (res: Option<u32>)
        ensures
            res == (match *self {
                Heuristic::Damage { amount, .. } | Heuristic::Debuff { amount, .. } => Some(amount),
                Heuristic::Move { .. } => None::<u32>,
            }),
    {
        match self {
            Heuristic::Damage { amount, .. } | Heuristic::Debuff { amount, .. } => Some(*amount),
            Heuristic::Move { .. } => None,
        }
    }

    /// Whether this estimates damage.
    pub fn damage(&self) -> (res: bool)
        ensures
            res == (*self is Damage),
    {
        matches!(self, Heuristic::Damage { .. })
    }

    /// Whether this estimates a debuff.
    pub fn debuff(&self) -> (res: bool)
        ensures
            res == (*self is Debuff),
    {
        matches!(self, Heuristic::Debuff { .. })
    }
}

/// A potential action, with the estimates of its outcome.
#[derive(Debug)]
pub struct Consider {
    pub action: Action,
    pub heuristics: Vec<Heuristic>,
}

impl Consider {
    /// The heuristic at `index` together with the index of the one after it, or `None` past the
    /// last: starting from 0, this walks the heuristics in order.
    pub fn next(&self, index: usize) -> (res: Option<(usize, Heuristic)>)
        ensures
            index < self.heuristics@.len() ==> (res matches Some(p) && p.0 == index + 1
                && p.1.same(self.heuristics@[index as int])),
            index >= self.heuristics@.len() ==> res is None,
    {
        if index < self.heuristics.len() {
            Some((index + 1, self.heuristics[index].clone()))
        } else {
            None
        }
    }

    /// Whether the action is an attack.
    pub fn attack(&self) -> (res: bool)
        ensures
            res == (self.action is Attack),
    {
        matches!(self.action, Action::Attack(..))
    }

    /// Whether the action is a spell.
    pub fn spell(&self) -> (res: bool)
        ensures
            res == (self.action is Cast),
    {
        matches!(self.action, Action::Cast(..))
    }
}

/// A script's integer as an amount: clamped to the range of `u32`.
pub fn saturating_cast(x: i64) -> (res: u32)
    ensures
        res == (if x < 0 { 0 } else if x > u32::MAX { u32::MAX as int } else { x as int }),
{
    if x < 0 {
        0
    } else if x > u32::MAX as i64 {
        u32::MAX
    } else {
        x as u32
    }
}

} // verus!
