//! The camera that follows the action, and the pseudo-random numbers that animate the scenery.

use crate::character::Piece;
use vstd::prelude::*;

verus! {

/// The size of a tile on screen, in pixels.
pub const TILE_SIZE: u32 = 64;

/// The size of a tile on screen, in pixels.
pub const ITILE_SIZE: i32 = 64;

/// Which part of the board is shown: the pixel at the top left of the view, and the view's size.
#[derive(Clone, Copy, Debug, PartialEq, Eq, Structural)]
pub struct Camera {
    x: i32,
    y: i32,
    width: u32,
    height: u32,
}

/// Division by 2 that rounds towards zero, as integer division does.
pub open spec fn half(n: int) -> int {
    if n >= 0 {
        n / 2
    } else {
        -((-n) / 2)
    }
}

/// The coordinate of the view's top left corner that centers the tile at pixel offset `pixel` in a view `size` wide.
pub open spec fn centered(pixel: int, size: u32) -> int {
    pixel - half((#[verifier::truncate] (size as i32)) - 64)
}

/// Whether centering the tile at pixel offset `pixel` in a view `size` wide stays within `i32`.
pub open spec fn centering_fits(pixel: int, size: u32) -> bool {
    &&& i32::MIN <= pixel <= i32::MAX
    &&& i32::MIN <= (#[verifier::truncate] (size as i32)) - 64
    &&& i32::MIN <= centered(pixel, size) <= i32::MAX
}

fn half_of(n: i32) -> (res: i32)
    ensures
        res == half(n as int),
{
    n / 2
}

impl Camera {
    /// A camera at the origin with an empty view.
    pub fn new() -> (res: Camera)
        ensures
            res.x_pos() == 0,
            res.y_pos() == 0,
            res.view_width() == 0,
            res.view_height() == 0,
    {
        Camera { x: 0, y: 0, width: 0, height: 0 }
    }

    pub closed spec fn x_pos(&self) -> i32 {
        self.x
    }

    pub closed spec fn y_pos(&self) -> i32 {
        self.y
    }

    pub closed spec fn view_width(&self) -> u32 {
        self.width
    }

    pub closed spec fn view_height(&self) -> u32 {
        self.height
    }

    pub fn update_size(&mut self, width: u32, height: u32)
        ensures
            final(self).view_width() == width,
            final(self).view_height() == height,
            final(self).x_pos() == old(self).x_pos(),
            final(self).y_pos() == old(self).y_pos(),
    {
        self.width = width;
        self.height = height;
    }

    /// Centers the view on a piece.
    pub fn focus_character(&mut self, character: &Piece)
        requires
            centering_fits(character.x * 64, old(self).view_width()),
            centering_fits(character.y * 64, old(self).view_height()),
        ensures
            final(self).x_pos() == centered(character.x * 64, old(self).view_width()),
            final(self).y_pos() == centered(character.y * 64, old(self).view_height()),
            final(self).view_width() == old(self).view_width(),
            final(self).view_height() == old(self).view_height(),
    {
        let w = #[verifier::truncate] (self.width as i32);
        let h = #[verifier::truncate] (self.height as i32);
        self.x = character.x * ITILE_SIZE - half_of(w - ITILE_SIZE);
        self.y = character.y * ITILE_SIZE - half_of(h - ITILE_SIZE);
    }

    /// Centers the view halfway between a piece and a cursor.
    pub fn focus_character_with_cursor(&mut self, character: &Piece, cursor: (i32, i32))
        requires
            i32::MIN <= character.x * 64 <= i32::MAX,
            i32::MIN <= character.y * 64 <= i32::MAX,
            i32::MIN <= cursor.0 * 64 <= i32::MAX,
            i32::MIN <= cursor.1 * 64 <= i32::MAX,
            i32::MIN <= character.x * 64 + cursor.0 * 64 <= i32::MAX,
            i32::MIN <= character.y * 64 + cursor.1 * 64 <= i32::MAX,
            centering_fits(half(character.x * 64 + cursor.0 * 64), old(self).view_width()),
            centering_fits(half(character.y * 64 + cursor.1 * 64), old(self).view_height()),
        ensures
            final(self).x_pos() == centered(half(character.x * 64 + cursor.0 * 64), old(self).view_width()),
            final(self).y_pos() == centered(half(character.y * 64 + cursor.1 * 64), old(self).view_height()),
            final(self).view_width() == old(self).view_width(),
            final(self).view_height() == old(self).view_height(),
    {
        let w = #[verifier::truncate] (self.width as i32);
        let h = #[verifier::truncate] (self.height as i32);
        self.x = half_of(character.x * ITILE_SIZE + cursor.0 * ITILE_SIZE) - half_of(w - ITILE_SIZE);
        self.y = half_of(character.y * ITILE_SIZE + cursor.1 * ITILE_SIZE) - half_of(h - ITILE_SIZE);
    }
}

impl Default for Camera {
    fn default() -> (res: Camera)
        ensures
            res.x_pos() == 0,
            res.y_pos() == 0,
            res.view_width() == 0,
            res.view_height() == 0,
    {
        Camera::new()
    }
}

/// One step of the xorshift pseudo-random number generator.
pub open spec fn xorshift_spec(x: u32) -> u32 {
    let a = x ^ (x << 13u32);
    let b = a ^ (a >> 17u32);
    b ^ (b << 5u32)
}

/// One step of the xorshift pseudo-random number generator.
pub fn xorshift(x: u32) -> (res: u32)
    ensures
        res == xorshift_spec(x),
{
    let mut x = x;
    x ^= x << 13u32;
    x ^= x >> 17u32;
    x ^ x << 5u32
}

} // verus!
