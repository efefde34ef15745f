//! One cell of the mine field: its content (a mine, or the count of
//! adjacent mines) and its revealed / flagged state.

use vstd::prelude::*;

verus! {

/// Content of one tile: either a mine, or the number of mines among the
/// tile's up-to-eight in-bounds Moore neighbors. The count is a closed
/// enumeration so that a count above eight cannot even be represented.
#[derive(Clone, Copy, Debug, PartialEq, Eq, Structural)]
pub enum TileContent {
    Mine,
    Zero,
    One,
    Two,
    Three,
    Four,
    Five,
    Six,
    Seven,
    Eight,
}

impl TileContent {
    /// The numeric value of a count; mines have no count and map to -1.
    pub open spec fn count(self) -> int {
        match self {
            TileContent::Mine => -1,
            TileContent::Zero => 0,
            TileContent::One => 1,
            TileContent::Two => 2,
            TileContent::Three => 3,
            TileContent::Four => 4,
            TileContent::Five => 5,
            TileContent::Six => 6,
            TileContent::Seven => 7,
            TileContent::Eight => 8,
        }
    }

    /// The content that stands for adjacency count `n`.
    pub open spec fn of_count(n: int) -> TileContent {
        if n == 0 {
            TileContent::Zero
        } else if n == 1 {
            TileContent::One
        } else if n == 2 {
            TileContent::Two
        } else if n == 3 {
            TileContent::Three
        } else if n == 4 {
            TileContent::Four
        } else if n == 5 {
            TileContent::Five
        } else if n == 6 {
            TileContent::Six
        } else if n == 7 {
            TileContent::Seven
        } else {
            TileContent::Eight
        }
    }

    /// The successor count. Callers must know the content is a count of at
    /// most seven: the board invariant (at most eight mines around a tile,
    /// one neighbor known not to be a mine yet) makes that so at every
    /// increment site, so the impossible ninth step is proven unreachable.
    pub fn incremented(self) -> (r: TileContent)
        requires
            0 <= self.count() <= 7,
        ensures
            r == TileContent::of_count(self.count() + 1),
    {
        match self {
            TileContent::Zero => TileContent::One,
            TileContent::One => TileContent::Two,
            TileContent::Two => TileContent::Three,
            TileContent::Three => TileContent::Four,
            TileContent::Four => TileContent::Five,
            TileContent::Five => TileContent::Six,
            TileContent::Six => TileContent::Seven,
            TileContent::Seven => TileContent::Eight,
            _ => {
                proof {
                    assert(false);
                }
                TileContent::Eight
            },
        }
    }
}

/// One tile of the field.
#[derive(Clone, Copy, Debug, PartialEq, Eq, Structural)]
pub struct Tile {
    /// Whether a flag is planted on the tile (only meaningful while hidden).
    pub flagged: bool,
    /// Whether the tile has been revealed. Monotonic: never reset.
    pub probed: bool,
    /// Mine or adjacency count; fixed once the board is built.
    pub content: TileContent,
}

impl Tile {
    /// The glyph a renderer must show for this tile: flag, hidden, mine,
    /// blank for a revealed zero, or the digit of the adjacency count.
    pub open spec fn glyph(self) -> char {
        if !self.probed && self.flagged {
            'F'
        } else if !self.probed {
            '?'
        } else {
            match self.content {
                TileContent::Mine => 'M',
                TileContent::Zero => ' ',
                TileContent::One => '1',
                TileContent::Two => '2',
                TileContent::Three => '3',
                TileContent::Four => '4',
                TileContent::Five => '5',
                TileContent::Six => '6',
                TileContent::Seven => '7',
                TileContent::Eight => '8',
            }
        }
    }

    /// Style (an ANSI color prefix) and glyph for rendering this tile.
    /// Only the glyph is part of the engine's contract; the colors are
    /// presentation and carry no promise.
    pub fn as_cell(&self) -> (r: (String, char))
        ensures
            r.1 == self.glyph(),
    {
        if !self.probed && self.flagged {
            return ("\x1b[43m".to_string(), 'F');
        }
        if !self.probed {
            return ("\x1b[100m".to_string(), '?');
        }
        match self.content {
            TileContent::Mine => ("\x1b[40m\x1b[41;30m".to_string(), 'M'),
            TileContent::Zero => ("\x1b[40m\x1b[39m".to_string(), ' '),
            TileContent::One => ("\x1b[40m\x1b[39m".to_string(), '1'),
            TileContent::Two => ("\x1b[40m\x1b[95m".to_string(), '2'),
            TileContent::Three => ("\x1b[40m\x1b[35m".to_string(), '3'),
            TileContent::Four => ("\x1b[40m\x1b[34m".to_string(), '4'),
            TileContent::Five => ("\x1b[40m\x1b[36m".to_string(), '5'),
            TileContent::Six => ("\x1b[40m\x1b[32m".to_string(), '6'),
            TileContent::Seven => ("\x1b[40m\x1b[33m".to_string(), '7'),
            TileContent::Eight => ("\x1b[40m\x1b[31m".to_string(), '8'),
        }
    }
}

} // verus!
