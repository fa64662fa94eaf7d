use vstd::prelude::*;

verus! {

/// What the player sees of a cell.
#[derive(Clone, Copy, Debug, PartialEq, Eq, Structural)]
pub enum CellState {
    Hidden,
    Revealed,
    Flagged,
}

/// One square of the board.
#[derive(Clone, Copy, Debug, PartialEq, Eq, Structural)]
pub struct Cell {
    pub state: CellState,
    pub is_mine: bool,
    pub adjacent_mines: u8,
}

impl Cell {
    /// A hidden, empty cell.
    pub fn new() -> (c: Cell)
        ensures
            c == (Cell { state: CellState::Hidden, is_mine: false, adjacent_mines: 0 }),
    {
        Cell { state: CellState::Hidden, is_mine: false, adjacent_mines: 0 }
    }
}

/// The terminal colours the game draws with.
#[derive(Clone, Copy, Debug, PartialEq, Eq, Structural)]
pub enum CellColor {
    Reset,
    Black,
    Red,
    Green,
    Yellow,
    Blue,
    Magenta,
    Cyan,
    Gray,
    DarkGray,
    White,
}

/// The colour in which a count of adjacent mines is written.
pub open spec fn number_color(num: u8) -> CellColor {
    if num == 1 {
        CellColor::Blue
    } else if num == 2 {
        CellColor::Green
    } else if num == 3 {
        CellColor::Red
    } else if num == 4 {
        CellColor::Magenta
    } else if num == 5 {
        CellColor::Yellow
    } else if num == 6 {
        CellColor::Cyan
    } else if num == 7 {
        CellColor::White
    } else if num == 8 {
        CellColor::Gray
    } else {
        CellColor::Reset
    }
}

pub fn get_color_for_number(num: u8) -> (c: CellColor)
    ensures
        c == number_color(num),
{
    match num {
        1 => CellColor::Blue,
        2 => CellColor::Green,
        3 => CellColor::Red,
        4 => CellColor::Magenta,
        5 => CellColor::Yellow,
        6 => CellColor::Cyan,
        7 => CellColor::White,
        8 => CellColor::Gray,
        _ => CellColor::Reset,
    }
}

/// The symbol drawn in a cell.
#[derive(Clone, Copy, Debug, PartialEq, Eq, Structural)]
pub enum Glyph {
    /// `#`: the hidden cell under the cursor.
    Cursor,
    /// `.`: a hidden cell.
    Covered,
    /// `!`: a flag.
    Flag,
    /// `*`: a revealed mine.
    Mine,
    /// The count of adjacent mines, when it is not zero.
    Number(u8),
    /// A revealed cell with no adjacent mine.
    Blank,
}

/// How a cell is drawn: its symbol, foreground and background.
#[derive(Clone, Copy, Debug, PartialEq, Eq, Structural)]
pub struct CellLook {
    pub glyph: Glyph,
    pub fg: CellColor,
    pub bg: CellColor,
}

pub open spec fn look_of(c: Cell, is_cursor: bool) -> CellLook {
    match c.state {
        CellState::Hidden => if is_cursor {
            CellLook { glyph: Glyph::Cursor, fg: CellColor::Black, bg: CellColor::Yellow }
        } else {
            CellLook { glyph: Glyph::Covered, fg: CellColor::DarkGray, bg: CellColor::Reset }
        },
        CellState::Flagged => CellLook { glyph: Glyph::Flag, fg: CellColor::Red, bg: CellColor::Reset },
        CellState::Revealed => if c.is_mine {
            CellLook { glyph: Glyph::Mine, fg: CellColor::Red, bg: CellColor::DarkGray }
        } else if c.adjacent_mines > 0 {
            CellLook {
                glyph: Glyph::Number(c.adjacent_mines),
                fg: number_color(c.adjacent_mines),
                bg: CellColor::Reset,
            }
        } else {
            CellLook { glyph: Glyph::Blank, fg: CellColor::Reset, bg: CellColor::Reset }
        },
    }
}

impl Cell {
    /// How this cell is drawn, given whether the cursor is on it.
    pub fn look(&self, is_cursor: bool) -> (l: CellLook)
        ensures
            l == look_of(*self, is_cursor),
    {
        match self.state {
            CellState::Hidden => {
                if is_cursor {
                    CellLook { glyph: Glyph::Cursor, fg: CellColor::Black, bg: CellColor::Yellow }
                } else {
                    CellLook { glyph: Glyph::Covered, fg: CellColor::DarkGray, bg: CellColor::Reset }
                }
            },
            CellState::Flagged => CellLook { glyph: Glyph::Flag, fg: CellColor::Red, bg: CellColor::Reset },
            CellState::Revealed => {
                if self.is_mine {
                    CellLook { glyph: Glyph::Mine, fg: CellColor::Red, bg: CellColor::DarkGray }
                } else if self.adjacent_mines > 0 {
                    CellLook {
                        glyph: Glyph::Number(self.adjacent_mines),
                        fg: get_color_for_number(self.adjacent_mines),
                        bg: CellColor::Reset,
                    }
                } else {
                    CellLook { glyph: Glyph::Blank, fg: CellColor::Reset, bg: CellColor::Reset }
                }
            },
        }
    }
}

} // verus!
