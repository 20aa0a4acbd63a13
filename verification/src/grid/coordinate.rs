//! A signed (row, column) pair identifying a grid cell.

use crate::grid::utils::i8_to_text;
use crate::grid::utils::parse_i8_tuple;
use crate::grid::utils::spec_i8_text;
use crate::grid::utils::spec_parse_i8_tuple;
use vstd::prelude::*;

verus! {

/// A grid position. Carries no range restriction of its own: validity is
/// relative to a grid's size and checked only at lookup or mutation time.
#[derive(Clone, Copy, Debug, PartialEq, Eq, Hash, Structural)]
pub struct Coordinate {
    pub row_index: i8,
    pub column_index: i8,
}

impl Coordinate {
    pub fn new(row_index: i8, column_index: i8) -> (c: Coordinate)
        ensures
            c == (Coordinate { row_index, column_index }),
    {
        Coordinate { row_index, column_index }
    }

    /// Reads a coordinate from text of the form `"<row>,<column>"`, both
    /// parts signed 8-bit integers; whitespace at the ends of the whole
    /// string is trimmed first.
    pub fn parse(input: String) -> (r: Option<Coordinate>)
        ensures
            r == match spec_parse_i8_tuple(input@, ',') {
                Some((row_index, column_index)) => Some(Coordinate { row_index, column_index }),
                None => None::<Coordinate>,
            },
    {
        match parse_i8_tuple(input, ',') {
            Some((row_index, column_index)) => Some(Coordinate::new(row_index, column_index)),
            None => None,
        }
    }

    /// The coordinate as text: `"(<row>,<column>)"`.
    pub fn render(&self) -> (r: String)
        ensures
            r@ == seq!['('] + spec_i8_text(self.row_index as int) + seq![','] + spec_i8_text(
                self.column_index as int,
            ) + seq![')'],
    {
        let mut out = String::new();
        out.append("(");
        let row_text = i8_to_text(self.row_index);
        out.append(row_text.as_str());
        out.append(",");
        let column_text = i8_to_text(self.column_index);
        out.append(column_text.as_str());
        out.append(")");
        proof {
            reveal_strlit("(");
            reveal_strlit(",");
            reveal_strlit(")");
            assert(out@ =~= seq!['('] + spec_i8_text(self.row_index as int) + seq![',']
                + spec_i8_text(self.column_index as int) + seq![')']);
        }
        out
    }
}

} // verus!
