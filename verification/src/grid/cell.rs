//! The two-valued cell state and its glyph representation.

use vstd::prelude::*;

verus! {

/// One cell of the grid: either alive or dead. Pure value, no payload.
#[derive(Clone, Copy, Debug, PartialEq, Eq, Structural)]
pub enum Cell {
    Alive,
    Dead,
}

impl Cell {
    /// The cell that a single glyph denotes: `'.'` is dead, any other
    /// character is alive.
    pub open spec fn from_glyph(glyph: char) -> Cell {
        if glyph == '.' {
            Cell::Dead
        } else {
            Cell::Alive
        }
    }

    /// The glyph this cell renders as: `'.'` for a dead cell, `'O'` for a
    /// live one. The exact choice is a presentation detail; it is picked so
    /// that a rendered grid reads back as a pattern (`'.'` versus not-`'.'`).
    pub open spec fn spec_glyph(self) -> char {
        if self is Dead {
            '.'
        } else {
            'O'
        }
    }

    /// Reads a cell from a one-character token; any input that is not
    /// exactly one character long is rejected.
    pub fn parse(input: &str) -> (r: Option<Cell>)
        ensures
            r == if input@.len() == 1 {
                Some(Cell::from_glyph(input@[0]))
            } else {
                None::<Cell>
            },
    {
        if input.unicode_len() == 1 {
            let glyph = input.get_char(0);
            if glyph == '.' {
                Some(Cell::Dead)
            } else {
                Some(Cell::Alive)
            }
        } else {
            None
        }
    }

    /// This cell's glyph as a one-character string slice.
    pub fn glyph(&self) -> (r: &'static str)
        ensures
            r@ == seq![self.spec_glyph()],
    {
        proof {
            reveal_strlit(".");
            reveal_strlit("O");
        }
        let r = match self {
            Cell::Dead => ".",
            Cell::Alive => "O",
        };
        proof {
            assert(r@ =~= seq![self.spec_glyph()]);
        }
        r
    }
}

} // verus!
