//! A signed (width, height) pair describing grid dimensions.

use crate::grid::utils::i8_to_text;
use crate::grid::utils::parse_i8_tuple;
use crate::grid::utils::spec_i8_text;
use crate::grid::utils::spec_parse_i8_tuple;
use vstd::prelude::*;

verus! {

/// Grid dimensions. Non-positive values are representable; a well-behaved
/// caller passes strictly positive ones to grid construction.
#[derive(Clone, Copy, Debug, PartialEq, Eq, Structural)]
pub struct Size {
    pub width: i8,
    pub height: i8,
}

impl Size {
    pub fn new(width: i8, height: i8) -> (s: Size)
        ensures
            s == (Size { width, height }),
    {
        Size { width, height }
    }

    /// Reads a size from text of the form `"<width>x<height>"`, both parts
    /// signed 8-bit integers; whitespace at the ends of the whole string is
    /// trimmed first.
    pub fn parse(input: String) -> (r: Option<Size>)
        ensures
            r == match spec_parse_i8_tuple(input@, 'x') {
                Some((width, height)) => Some(Size { width, height }),
                None => None::<Size>,
            },
    {
        match parse_i8_tuple(input, 'x') {
            Some((width, height)) => Some(Size::new(width, height)),
            None => None,
        }
    }

    /// The size as text: `"<<width>x<height>>"`, for example `"<4x5>"`.
    pub fn render(&self) -> (r: String)
        ensures
            r@ == seq!['<'] + spec_i8_text(self.width as int) + seq!['x'] + spec_i8_text(
                self.height as int,
            ) + seq!['>'],
    {
        let mut out = String::new();
        out.append("<");
        let width_text = i8_to_text(self.width);
        out.append(width_text.as_str());
        out.append("x");
        let height_text = i8_to_text(self.height);
        out.append(height_text.as_str());
        out.append(">");
        proof {
            reveal_strlit("<");
            reveal_strlit("x");
            reveal_strlit(">");
            assert(out@ =~= seq!['<'] + spec_i8_text(self.width as int) + seq!['x']
                + spec_i8_text(self.height as int) + seq!['>']);
        }
        out
    }
}

} // verus!
