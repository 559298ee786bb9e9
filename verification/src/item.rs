//! Items, and items lying on the board.

use vstd::prelude::*;

verus! {

#[derive(Clone, Debug, Default)]
pub struct Item {
    pub name: String,
}

/// An item lying on the board.
#[derive(Clone, Debug, Default)]
pub struct Piece {
    pub item: Item,
    pub x: i32,
    pub y: i32,
}

} // verus!
