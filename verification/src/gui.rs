//! The layout of the interface: a cursor that moves down (or, within a row, right) through a
//! rectangle as things are drawn in it.

use crate::character::Stats;
use crate::Color;
use vstd::prelude::*;
use vstd::string::*;

verus! {

/// A rectangle of the screen.
#[derive(Clone, Copy, Debug, PartialEq, Eq, Structural)]
pub struct Rect {
    pub x: i32,
    pub y: i32,
    pub width: u32,
    pub height: u32,
}

/// Which way the cursor moves.
#[derive(Clone, Copy, Debug, PartialEq, Eq, Structural)]
pub enum Orientation {
    Vertical,
    /// Within a row, which is as tall as the tallest thing in it.
    Horizontal { height: i32 },
}

/// Where the next thing is drawn within a rectangle.
#[derive(Clone, Copy, Debug, PartialEq, Eq, Structural)]
pub struct Layout {
    pub rect: Rect,
    /// These values control the position of the cursor.
    pub x: i32,
    pub y: i32,
    /// Determines which direction the cursor moves in.
    pub orientation: Orientation,
}

impl Layout {
    /// A cursor at the top-left corner of `rect`, moving down.
    pub fn new(rect: Rect) -> (res: Layout)
        ensures
            res == (Layout { rect, x: rect.x, y: rect.y, orientation: Orientation::Vertical }),
    {
        Layout { rect, x: rect.x, y: rect.y, orientation: Orientation::Vertical }
    }

    /// Moves the cursor to the top-left corner of `rect`, which it now lays out.
    pub fn relocate(&mut self, rect: Rect)
        ensures
            *final(self) == (Layout { rect, x: rect.x, y: rect.y, orientation: old(self).orientation }),
    {
        self.rect = rect;
        self.x = rect.x;
        self.y = rect.y;
    }

    /// Whether something of this size can be laid out without leaving the range of `i32`.
    pub open spec fn can_advance(self, width: u32, height: u32) -> bool {
        &&& width <= i32::MAX
        &&& height <= i32::MAX
        &&& match self.orientation {
            Orientation::Horizontal { .. } => self.x + width <= i32::MAX,
            Orientation::Vertical => self.y + height <= i32::MAX,
        }
    }

    /// Moves the cursor past something of this size: right within a row, which grows to its
    /// height, or else down.
    pub fn advance(&mut self, width: u32, height: u32)
        requires
            old(self).can_advance(width, height),
        ensures
            match old(self).orientation {
                Orientation::Horizontal { height: row } => *final(self) == (Layout {
                    x: (old(self).x + width) as i32,
                    orientation: Orientation::Horizontal {
                        height: if row >= height { row } else { height as i32 },
                    },
                    ..*old(self)
                }),
                Orientation::Vertical => *final(self) == (Layout { y: (old(self).y + height) as i32, ..*old(self) }),
            },
    {
        let width = width as i32;
        let height = height as i32;
        match self.orientation {
            Orientation::Horizontal { height: row } => {
                self.x = self.x + width;
                let height = if row >= height { row } else { height };
                self.orientation = Orientation::Horizontal { height };
            },
            Orientation::Vertical => {
                self.y = self.y + height;
            },
        }
    }

    /// Starts a row.
    pub fn horizontal(&mut self)
        ensures
            *final(self) == (Layout { orientation: Orientation::Horizontal { height: 0 }, ..*old(self) }),
    {
        self.orientation = Orientation::Horizontal { height: 0 };
    }

    /// Ends a row: the cursor goes back to the left edge, below the row.
    pub fn vertical(&mut self)
        requires
            old(self).orientation matches Orientation::Horizontal { height } ==> old(self).y + height <= i32::MAX
                && old(self).y + height >= i32::MIN,
        ensures
            match old(self).orientation {
                Orientation::Horizontal { height } => *final(self) == (Layout {
                    x: old(self).rect.x,
                    y: (old(self).y + height) as i32,
                    orientation: Orientation::Vertical,
                    ..*old(self)
                }),
                Orientation::Vertical => *final(self) == *old(self),
            },
    {
        if let Orientation::Horizontal { height } = self.orientation {
            self.orientation = Orientation::Vertical;
            self.x = self.rect.x;
            self.y = self.y + height;
        }
    }

    /// The rectangle of the `i`th of `count` columns side by side, from the cursor down.
    pub fn column(&self, i: u32, count: u32) -> (res: Rect)
        requires
            0 < count <= i32::MAX,
            i < count,
            self.rect.width <= i32::MAX,
            self.x + (self.rect.width as int) / (count as int) * i <= i32::MAX,
        ensures
            res == (Rect {
                x: (self.x + (self.rect.width as int) / (count as int) * i) as i32,
                y: self.y,
                width: self.rect.width / count,
                height: self.rect.height,
            }),
    {
        let share = (self.rect.width as i32) / (count as i32);
        let ghost w = self.rect.width as int;
        assert(share == w / (count as int));
        assert(0 <= share * i <= w) by (nonlinear_arith)
            requires
                share == w / (count as int),
                0 <= i < count,
                w >= 0,
        ;
        let offset = share * (i as i32);
        Rect { x: self.x + offset, y: self.y, width: self.rect.width / count, height: self.rect.height }
    }

    /// Moves the cursor below the columns laid out beside each other, whose lowest cursor
    /// ended at `lowest`.
    pub fn end_columns(&mut self, lowest: i32)
        requires
            old(self).y <= lowest,
            old(self).can_advance(0, (lowest - old(self).y) as u32),
        ensures
            match old(self).orientation {
                Orientation::Horizontal { height: row } => *final(self) == (Layout {
                    orientation: Orientation::Horizontal {
                        height: if row >= lowest - old(self).y { row } else { (lowest - old(self).y) as i32 },
                    },
                    ..*old(self)
                }),
                Orientation::Vertical => *final(self) == (Layout { y: lowest, ..*old(self) }),
            },
    {
        let grown = (lowest - self.y) as u32;
        self.advance(0, grown);
    }
}

/// Colors for the variables of an expression, by name.
pub trait VariableColors {
    fn get(s: &str) -> Option<Color>;
}

impl VariableColors for () {
    fn get(s: &str) -> (res: Option<Color>)
        ensures
            res is None,
    {
        None
    }
}

/// The color of each statistic, by the name of its variable.
pub open spec fn stat_color(name: Seq<char>) -> Option<Color> {
    if name == "heart"@ {
        Some((96, 67, 18, 255))
    } else if name == "soul"@ {
        Some((128, 128, 128, 255))
    } else if name == "power"@ {
        Some((255, 11, 64, 255))
    } else if name == "defense"@ {
        Some((222, 120, 64, 255))
    } else if name == "magic"@ {
        Some((59, 115, 255, 255))
    } else if name == "resistance"@ {
        Some((222, 64, 255, 255))
    } else {
        None
    }
}

/// Whether `s` spells `word`.
pub fn is_word(s: &str, word: &str) -> (res: bool)
    ensures
        res == (s@ == word@),
{
    let n = s.unicode_len();
    if n != word.unicode_len() {
        return false;
    }
    let mut i: usize = 0;
    while i < n
        invariant
            0 <= i <= n,
            n == s@.len(),
            n == word@.len(),
            forall|j: int| 0 <= j < i ==> s@[j] == word@[j],
        decreases n - i,
    {
        if s.get_char(i) != word.get_char(i) {
            return false;
        }
        i += 1;
    }
    assert(s@ == word@);
    true
}

impl VariableColors for Stats {
    fn get(s: &str) -> (res: Option<Color>)
        ensures
            res == stat_color(s@),
    {
        if is_word(s, "heart") {
            Some((96, 67, 18, 255))
        } else if is_word(s, "soul") {
            Some((128, 128, 128, 255))
        } else if is_word(s, "power") {
            Some((255, 11, 64, 255))
        } else if is_word(s, "defense") {
            Some((222, 120, 64, 255))
        } else if is_word(s, "magic") {
            Some((59, 115, 255, 255))
        } else if is_word(s, "resistance") {
            Some((222, 64, 255, 255))
        } else {
            None
        }
    }
}

} // verus!
