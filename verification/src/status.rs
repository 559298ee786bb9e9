//! Lasting effects on a piece.

use vstd::prelude::*;

verus! {

/// How long a status lasts.
#[derive(Clone, Copy, Debug, PartialEq, Eq, Structural)]
pub enum Duration {
    Rest,
    Turn,
}

#[derive(Clone, Debug)]
pub struct Status {
    pub name: String,
    pub icon: String,
    pub duration: Duration,
    pub on_debuff: String,
}

} // verus!
