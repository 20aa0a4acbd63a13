//! The grid aggregate: cell storage, wrapping, mutation and evolution.

use vstd::prelude::*;

pub mod cell;
pub mod coordinate;
pub mod size;
pub mod utils;

use cell::Cell;
use coordinate::Coordinate;
use size::Size;
use utils::join_lines;
use utils::lemma_join_lines_first;
use utils::lemma_join_lines_last;
use utils::lemma_join_lines_push;
use utils::lemma_split_join_lines;
use utils::split_lines;
use utils::trim_end;
use utils::trim_start;
use utils::trimmed;

verus! {

/// A fixed-size rectangular grid of cells with a generation counter.
///
/// The cells of the rectangle `[0,height) x [0,width)` are stored densely
/// in row-major order. The cell set is fixed at construction: mutation
/// and evolution replace cell values but never add or remove a cell.
///
/// The generation counter starts at 0 and goes up by exactly 1 per
/// evolution step; at `u16::MAX` it saturates rather than wrapping.
#[derive(Debug)]
pub struct Grid {
    cells: Vec<Cell>,
    size: Size,
    pub generation: u16,
}

/// How many cells a grid of size `s` holds: `width * height` when both are
/// positive, otherwise none.
pub open spec fn spec_area(s: Size) -> int {
    if s.width > 0 && s.height > 0 {
        s.width * s.height
    } else {
        0
    }
}

proof fn lemma_area_bound(w: int, h: int)
    by (nonlinear_arith)
    requires
        0 <= w <= 127,
        0 <= h <= 127,
    ensures
        0 <= w * h <= 16129,
{
}

proof fn lemma_rc_index(w: int, h: int, row: int, column: int)
    by (nonlinear_arith)
    requires
        0 <= row < h,
        0 <= column < w,
    ensures
        0 <= row * w + column < w * h,
        row * w <= row * w + column,
{
}

proof fn lemma_rc_index_injective(w: int, r1: int, c1: int, r2: int, c2: int)
    by (nonlinear_arith)
    requires
        0 <= c1 < w,
        0 <= c2 < w,
        0 <= r1,
        0 <= r2,
        r1 * w + c1 == r2 * w + c2,
    ensures
        r1 == r2,
        c1 == c2,
{
}

impl Grid {
    /// The stored cells, row-major.
    pub closed spec fn spec_cells(self) -> Seq<Cell> {
        self.cells@
    }

    /// The grid's declared dimensions.
    pub closed spec fn spec_size(self) -> Size {
        self.size
    }

    /// The generation counter.
    pub closed spec fn spec_generation(self) -> u16 {
        self.generation
    }

    pub open spec fn spec_width(self) -> int {
        self.spec_size().width as int
    }

    pub open spec fn spec_height(self) -> int {
        self.spec_size().height as int
    }

    /// Well-formedness: the storage holds exactly one cell per coordinate
    /// of the rectangle. Constructors establish this and every method
    /// preserves it.
    pub open spec fn wf(self) -> bool {
        self.spec_cells().len() == spec_area(self.spec_size())
    }

    /// Whether `(row, column)` lies inside the rectangle.
    pub open spec fn in_bounds(self, row: int, column: int) -> bool {
        0 <= row < self.spec_height() && 0 <= column < self.spec_width()
    }

    /// The cell stored at an in-bounds `(row, column)`.
    pub open spec fn cell_at(self, row: int, column: int) -> Cell {
        self.spec_cells()[row * self.spec_width() + column]
    }

    /// One wrapping step for a row index on the toroidal surface. The
    /// form is deliberately single-step and asymmetric: a negative index
    /// reflects to `height - row` rather than `height + row`, an index at
    /// or past the height steps back by the height, and an index that is
    /// still out of range after one step simply misses the grid (`get`
    /// then returns `None`).
    pub open spec fn spec_cycle_row(self, row: int) -> int {
        if row < 0 {
            self.spec_height() - row
        } else if row >= self.spec_height() {
            row - self.spec_height()
        } else {
            row
        }
    }

    /// One wrapping step for a column index; same single-step style as
    /// `spec_cycle_row`, against the width.
    pub open spec fn spec_cycle_column(self, column: int) -> int {
        if column < 0 {
            self.spec_width() - column
        } else if column >= self.spec_width() {
            column - self.spec_width()
        } else {
            column
        }
    }

    /// What a lookup at `(row, column)` yields: the cell at the wrapped
    /// position, or `None` when the wrapped position still misses the
    /// rectangle.
    pub open spec fn spec_get_at(self, row: int, column: int) -> Option<Cell> {
        let r = self.spec_cycle_row(row);
        let c = self.spec_cycle_column(column);
        if self.in_bounds(r, c) {
            Some(self.cell_at(r, c))
        } else {
            None
        }
    }

    pub open spec fn spec_get(self, coordinate: Coordinate) -> Option<Cell> {
        self.spec_get_at(coordinate.row_index as int, coordinate.column_index as int)
    }

    /// Whether every cell of the grid is dead.
    pub open spec fn spec_is_empty(self) -> bool {
        forall|r: int, c: int| self.in_bounds(r, c) ==> self.cell_at(r, c) == Cell::Dead
    }

    /// Builds the full rectangle of cells, every cell dead, generation 0.
    pub fn new(size: Size) -> (g: Grid)
        ensures
            g.wf(),
            g.spec_size() == size,
            g.spec_generation() == 0,
            forall|r: int, c: int| g.in_bounds(r, c) ==> g.cell_at(r, c) == Cell::Dead,
    {
        let total: usize = if size.width > 0 && size.height > 0 {
            proof {
                lemma_area_bound(size.width as int, size.height as int);
            }
            (size.width as usize) * (size.height as usize)
        } else {
            0
        };
        let mut cells: Vec<Cell> = Vec::new();
        let mut i: usize = 0;
        while i < total
            invariant
                i <= total,
                cells@.len() == i,
                forall|k: int| 0 <= k < i ==> cells@[k] == Cell::Dead,
            decreases total - i,
        {
            cells.push(Cell::Dead);
            i = i + 1;
        }
        let g = Grid { cells, size, generation: 0 };
        proof {
            assert forall|r: int, c: int| g.in_bounds(r, c) implies g.cell_at(r, c)
                == Cell::Dead by {
                lemma_rc_index(g.spec_width(), g.spec_height(), r, c);
            }
        }
        g
    }

    /// Reads a grid from a textual pattern: the non-empty lines of the
    /// trimmed input, each itself trimmed, give the rows, with `'.'` for
    /// a dead cell and any other character for a live one. The height is
    /// the number of lines and the width the character count of the first
    /// line; construction fails exactly when either does not fit the
    /// signed 8-bit coordinate range. The grid always holds the full
    /// rectangle: a position past the end of its line is dead, and
    /// characters beyond the first line's width are ignored.
    pub fn parse(input: String) -> (r: Option<Grid>)
        ensures
            match r {
                Some(g) => {
                    &&& spec_pattern_fits(input@)
                    &&& g.wf()
                    &&& g.spec_generation() == 0
                    &&& g.spec_width() == spec_pattern_width(input@)
                    &&& g.spec_height() == spec_pattern_height(input@)
                    &&& forall|row: int, c: int|
                        g.in_bounds(row, c) ==> g.cell_at(row, c) == spec_pattern_cell(
                            input@,
                            row,
                            c,
                        )
                },
                None => !spec_pattern_fits(input@),
            },
    {
        let t: &str = utils::trim(input.as_str());
        let n: usize = t.unicode_len();
        let mut lines: Vec<String> = Vec::new();
        let ghost mut raw: Seq<Seq<char>> = Seq::empty();
        let mut p: usize = 0;
        proof {
            assert(t@.subrange(0, n as int) =~= t@);
            assert(raw + split_lines(t@) =~~= split_lines(t@));
            assert(lines.deep_view() =~~= raw.map_values(|line: Seq<char>| trimmed(line)));
        }
        while p < n
            invariant
                p <= n,
                n == t@.len(),
                t@ == trimmed(input@),
                split_lines(t@) =~~= raw + split_lines(t@.subrange(p as int, n as int)),
                lines.deep_view() =~~= raw.map_values(|line: Seq<char>| trimmed(line)),
            decreases n - p,
        {
            let mut j: usize = p;
            while j < n && t.get_char(j) != '\n'
                invariant
                    p <= j <= n,
                    n == t@.len(),
                    forall|k: int| p <= k < j ==> t@[k] != '\n',
                decreases n - j,
            {
                j = j + 1;
            }
            let ghost rest = t@.subrange(p as int, n as int);
            proof {
                assert forall|k: int| 0 <= k < j - p implies rest[k] != '\n' by {
                    assert(rest[k] == t@[p + k]);
                }
                if j < n {
                    assert(rest[j - p] == t@[j as int]);
                }
                utils::lemma_first_index_of_at(rest, '\n', j - p);
            }
            if j > p {
                let seg: &str = t.substring_char(p, j);
                let line: &str = utils::trim(seg);
                let ghost old_lines = lines.deep_view();
                let ghost old_raw = raw;
                lines.push(String::from_str(line));
                proof {
                    raw = raw.push(seg@);
                    assert(seg@ =~= rest.subrange(0, j - p));
                    if j < n {
                        assert(rest.subrange(j - p + 1, rest.len() as int) =~= t@.subrange(
                            j + 1,
                            n as int,
                        ));
                        assert(split_lines(rest) =~~= seq![seg@] + split_lines(
                            t@.subrange(j + 1, n as int),
                        ));
                    } else {
                        assert(seg@ =~= rest);
                        assert(split_lines(rest) =~~= seq![seg@]);
                        assert(t@.subrange(n as int, n as int).len() == 0);
                        assert(split_lines(t@.subrange(n as int, n as int))
                            =~~= Seq::<Seq<char>>::empty());
                    }
                    assert(raw =~~= old_raw + seq![seg@]);
                    let next: int = if j < n {
                        j + 1
                    } else {
                        n as int
                    };
                    assert(split_lines(t@) =~~= raw + split_lines(t@.subrange(next, n as int)));
                    assert(lines.deep_view() =~~= old_lines.push(trimmed(seg@)));
                    assert(raw.map_values(|line: Seq<char>| trimmed(line)) =~~= old_raw.map_values(
                        |line: Seq<char>| trimmed(line),
                    ).push(trimmed(seg@)));
                }
            } else {
                proof {
                    assert(rest.len() > 0 && rest[0] == '\n');
                    assert(rest.subrange(1, rest.len() as int) =~= t@.subrange(p + 1, n as int));
                    assert(split_lines(rest) =~~= split_lines(t@.subrange(p + 1, n as int)));
                }
            }
            if j < n {
                p = j + 1;
            } else {
                p = n;
            }
        }
        proof {
            assert(t@.subrange(n as int, n as int).len() == 0);
            assert(split_lines(t@.subrange(n as int, n as int)) =~~= Seq::<Seq<char>>::empty());
            assert(raw + Seq::<Seq<char>>::empty() =~~= raw);
            assert(split_lines(t@) =~~= raw);
            assert(lines.deep_view() =~~= spec_pattern_lines(input@));
        }
        let height: usize = lines.len();
        let width: usize = if height > 0 {
            lines[0].as_str().unicode_len()
        } else {
            0
        };
        proof {
            assert(height == spec_pattern_height(input@));
            if height > 0 {
                assert(lines.deep_view()[0] == lines@[0]@);
            }
            assert(width == spec_pattern_width(input@));
        }
        match dual_usize_to_i8(width, height) {
            None => None,
            Some((w, h)) => {
                let mut cells: Vec<Cell> = Vec::new();
                let mut row: usize = 0;
                while row < height
                    invariant
                        row <= height,
                        lines@.len() == height,
                        lines.deep_view() == spec_pattern_lines(input@),
                        width == spec_pattern_width(input@),
                        height == spec_pattern_height(input@),
                        width <= 127,
                        height <= 127,
                        cells@.len() == row * width,
                        forall|rr: int, cc: int|
                            0 <= rr < row && 0 <= cc < width ==> cells@[rr * width + cc]
                                == spec_pattern_cell(input@, rr, cc),
                    decreases height - row,
                {
                    let line: &str = lines[row].as_str();
                    let line_len: usize = line.unicode_len();
                    proof {
                        assert(lines.deep_view()[row as int] == lines@[row as int]@);
                        assert(line@ == spec_pattern_lines(input@)[row as int]);
                    }
                    let mut col: usize = 0;
                    while col < width
                        invariant
                            row < height,
                            col <= width,
                            lines@.len() == height,
                            line@ == spec_pattern_lines(input@)[row as int],
                            line_len == line@.len(),
                            width == spec_pattern_width(input@),
                            height == spec_pattern_height(input@),
                            width <= 127,
                            height <= 127,
                            cells@.len() == row * width + col,
                            forall|rr: int, cc: int|
                                0 <= rr < row && 0 <= cc < width ==> cells@[rr * width + cc]
                                    == spec_pattern_cell(input@, rr, cc),
                            forall|cc: int|
                                0 <= cc < col ==> cells@[row * width + cc] == spec_pattern_cell(
                                    input@,
                                    row as int,
                                    cc,
                                ),
                        decreases width - col,
                    {
                        let value: Cell = if col < line_len {
                            if line.get_char(col) == '.' {
                                Cell::Dead
                            } else {
                                Cell::Alive
                            }
                        } else {
                            Cell::Dead
                        };
                        proof {
                            assert(value == spec_pattern_cell(input@, row as int, col as int));
                        }
                        cells.push(value);
                        proof {
                            assert forall|rr: int, cc: int|
                                0 <= rr < row && 0 <= cc < width implies cells@[rr * width + cc]
                                == spec_pattern_cell(input@, rr, cc) by {
                                lemma_row_major_prefix(width as int, rr, cc, row as int);
                            }
                        }
                        col = col + 1;
                    }
                    proof {
                        lemma_mul_distribute(row as int, width as int);
                        assert forall|rr: int, cc: int|
                            0 <= rr < row + 1 && 0 <= cc < width implies cells@[rr * width + cc]
                            == spec_pattern_cell(input@, rr, cc) by {
                            if rr == row as int {
                                assert(cells@[row * width + cc] == spec_pattern_cell(
                                    input@,
                                    row as int,
                                    cc,
                                ));
                            } else {
                                lemma_row_major_prefix(width as int, rr, cc, row as int);
                            }
                        }
                    }
                    row = row + 1;
                }
                let g = Grid { cells, size: Size::new(w, h), generation: 0 };
                proof {
                    if width > 0 && height > 0 {
                        lemma_mul_commute(height as int, width as int);
                    } else {
                        lemma_mul_zero(height as int, width as int);
                    }
                    assert(g.wf());
                    assert forall|rr: int, cc: int| g.in_bounds(rr, cc) implies g.cell_at(rr, cc)
                        == spec_pattern_cell(input@, rr, cc) by {
                        lemma_rc_index(g.spec_width(), g.spec_height(), rr, cc);
                    }
                }
                Some(g)
            },
        }
    }

    /// One wrapping step for a row index; see `spec_cycle_row` for the
    /// deliberate quirks of the form. Computed in 16 bits so that even
    /// extreme inputs wrap without overflow.
    fn cycle_row(&self, row_index: i8) -> (r: i16)
        ensures
            r as int == self.spec_cycle_row(row_index as int),
    {
        let row = row_index as i16;
        let height = self.size.height as i16;
        if row < 0 {
            return height - row;
        }
        if row >= height {
            return row - height;
        }
        row
    }

    /// One wrapping step for a column index.
    fn cycle_column(&self, column_index: i8) -> (r: i16)
        ensures
            r as int == self.spec_cycle_column(column_index as int),
    {
        let column = column_index as i16;
        let width = self.size.width as i16;
        if column < 0 {
            return width - column;
        }
        if column >= width {
            return column - width;
        }
        column
    }

    /// Looks up the cell at `coordinate` after wrapping it onto the
    /// toroidal surface; `None` when the wrapped position misses the
    /// rectangle.
    pub fn get(&self, coordinate: Coordinate) -> (r: Option<Cell>)
        requires
            self.wf(),
        ensures
            r == self.spec_get(coordinate),
    {
        let row = self.cycle_row(coordinate.row_index);
        let column = self.cycle_column(coordinate.column_index);
        if 0 <= row && row < self.size.height as i16 && 0 <= column && column
            < self.size.width as i16 {
            proof {
                lemma_rc_index(self.spec_width(), self.spec_height(), row as int, column as int);
                lemma_area_bound(self.spec_width(), self.spec_height());
            }
            let idx: usize = (row as usize) * (self.size.width as usize) + (column as usize);
            Some(self.cells[idx])
        } else {
            None
        }
    }

    /// Replaces the cell at exactly `coordinate` (no wrapping) with a live
    /// one; a silent no-op when the coordinate misses the rectangle, so
    /// the cell set never grows.
    pub fn set_alive(&mut self, coordinate: Coordinate)
        requires
            old(self).wf(),
        ensures
            final(self).wf(),
            final(self).spec_size() == old(self).spec_size(),
            final(self).spec_generation() == old(self).spec_generation(),
            old(self).in_bounds(
                coordinate.row_index as int,
                coordinate.column_index as int,
            ) ==> forall|r: int, c: int|
                final(self).in_bounds(r, c) ==> final(self).cell_at(r, c) == (
                if r == coordinate.row_index as int && c == coordinate.column_index as int {
                    Cell::Alive
                } else {
                    old(self).cell_at(r, c)
                }),
            !old(self).in_bounds(coordinate.row_index as int, coordinate.column_index as int)
                ==> *final(self) == *old(self),
    {
        self.set_cell(coordinate, Cell::Alive);
    }

    /// Replaces the cell at exactly `coordinate` (no wrapping) with a dead
    /// one; a silent no-op when the coordinate misses the rectangle.
    pub fn set_dead(&mut self, coordinate: Coordinate)
        requires
            old(self).wf(),
        ensures
            final(self).wf(),
            final(self).spec_size() == old(self).spec_size(),
            final(self).spec_generation() == old(self).spec_generation(),
            old(self).in_bounds(
                coordinate.row_index as int,
                coordinate.column_index as int,
            ) ==> forall|r: int, c: int|
                final(self).in_bounds(r, c) ==> final(self).cell_at(r, c) == (
                if r == coordinate.row_index as int && c == coordinate.column_index as int {
                    Cell::Dead
                } else {
                    old(self).cell_at(r, c)
                }),
            !old(self).in_bounds(coordinate.row_index as int, coordinate.column_index as int)
                ==> *final(self) == *old(self),
    {
        self.set_cell(coordinate, Cell::Dead);
    }

    /// Stores `value` at an exact in-rectangle coordinate; the shared body
    /// of `set_alive` and `set_dead`.
    fn set_cell(&mut self, coordinate: Coordinate, value: Cell)
        requires
            old(self).wf(),
        ensures
            final(self).wf(),
            final(self).spec_size() == old(self).spec_size(),
            final(self).spec_generation() == old(self).spec_generation(),
            old(self).in_bounds(
                coordinate.row_index as int,
                coordinate.column_index as int,
            ) ==> forall|r: int, c: int|
                final(self).in_bounds(r, c) ==> final(self).cell_at(r, c) == (
                if r == coordinate.row_index as int && c == coordinate.column_index as int {
                    value
                } else {
                    old(self).cell_at(r, c)
                }),
            !old(self).in_bounds(coordinate.row_index as int, coordinate.column_index as int)
                ==> *final(self) == *old(self),
    {
        let row = coordinate.row_index;
        let column = coordinate.column_index;
        if 0 <= row && row < self.size.height && 0 <= column && column < self.size.width {
            proof {
                lemma_rc_index(self.spec_width(), self.spec_height(), row as int, column as int);
                lemma_area_bound(self.spec_width(), self.spec_height());
            }
            let idx: usize = (row as usize) * (self.size.width as usize) + (column as usize);
            self.cells[idx] = value;
            proof {
                assert forall|r: int, c: int|
                    self.in_bounds(r, c) && !(r == row as int && c == column as int) implies
                    self.cell_at(r, c) == old(self).cell_at(r, c) by {
                    lemma_rc_index(self.spec_width(), self.spec_height(), r, c);
                    if r * self.spec_width() + c == row as int * self.spec_width() + column as int {
                        lemma_rc_index_injective(
                            self.spec_width(),
                            r,
                            c,
                            row as int,
                            column as int,
                        );
                    }
                }
            }
        }
    }

    /// True exactly when every cell in the grid is dead.
    pub fn is_empty(&self) -> (r: bool)
        requires
            self.wf(),
        ensures
            r == self.spec_is_empty(),
    {
        if self.size.width <= 0 || self.size.height <= 0 {
            return true;
        }
        let w: usize = self.size.width as usize;
        let h: usize = self.size.height as usize;
        let mut row: usize = 0;
        while row < h
            invariant
                self.wf(),
                w == self.spec_width(),
                h == self.spec_height(),
                row <= h,
                forall|r: int, c: int|
                    0 <= r < row && 0 <= c < w ==> self.cell_at(r, c) == Cell::Dead,
            decreases h - row,
        {
            let mut col: usize = 0;
            while col < w
                invariant
                    self.wf(),
                    w == self.spec_width(),
                    h == self.spec_height(),
                    row < h,
                    col <= w,
                    forall|r: int, c: int|
                        0 <= r < row && 0 <= c < w ==> self.cell_at(r, c) == Cell::Dead,
                    forall|c: int| 0 <= c < col ==> self.cell_at(row as int, c) == Cell::Dead,
                decreases w - col,
            {
                proof {
                    lemma_rc_index(self.spec_width(), self.spec_height(), row as int, col as int);
                    lemma_area_bound(self.spec_width(), self.spec_height());
                }
                let idx: usize = row * w + col;
                if let Cell::Alive = self.cells[idx] {
                    proof {
                        assert(self.in_bounds(row as int, col as int));
                        assert(self.cell_at(row as int, col as int) == Cell::Alive);
                    }
                    return false;
                }
                col = col + 1;
            }
            row = row + 1;
        }
        true
    }
}


/// The lines of a pattern: the non-empty newline-separated segments of
/// the trimmed input, each itself trimmed.
pub open spec fn spec_pattern_lines(s: Seq<char>) -> Seq<Seq<char>> {
    split_lines(trimmed(s)).map_values(|line: Seq<char>| trimmed(line))
}

/// The height a pattern describes: its number of lines.
pub open spec fn spec_pattern_height(s: Seq<char>) -> int {
    spec_pattern_lines(s).len() as int
}

/// The width a pattern describes: the character count of its first line.
pub open spec fn spec_pattern_width(s: Seq<char>) -> int {
    if spec_pattern_lines(s).len() == 0 {
        0
    } else {
        spec_pattern_lines(s)[0].len() as int
    }
}

/// Whether the pattern's dimensions fit the signed 8-bit coordinate range.
pub open spec fn spec_pattern_fits(s: Seq<char>) -> bool {
    spec_pattern_width(s) <= 127 && spec_pattern_height(s) <= 127
}

/// The cell a pattern puts at `(row, column)`: live when line `row` has a
/// character at `column` and it is not `'.'`; dead otherwise, also when
/// the line is shorter than the grid is wide.
pub open spec fn spec_pattern_cell(s: Seq<char>, row: int, column: int) -> Cell {
    let line = spec_pattern_lines(s)[row];
    if column < line.len() && line[column] != '.' {
        Cell::Alive
    } else {
        Cell::Dead
    }
}

/// Narrows a pair of counts to signed 8-bit values when both fit.
fn dual_usize_to_i8(first: usize, second: usize) -> (r: Option<(i8, i8)>)
    ensures
        r == if first <= 127 && second <= 127 {
            Some((first as i8, second as i8))
        } else {
            None::<(i8, i8)>
        },
{
    if first <= 127 && second <= 127 {
        Some((first as i8, second as i8))
    } else {
        None
    }
}

proof fn lemma_mul_distribute(a: int, b: int)
    by (nonlinear_arith)
    ensures
        (a + 1) * b == a * b + b,
{
}

proof fn lemma_row_major_prefix(width: int, rr: int, cc: int, row: int)
    by (nonlinear_arith)
    requires
        0 <= cc < width,
        0 <= rr < row,
    ensures
        0 <= rr * width + cc < row * width,
{
}

proof fn lemma_mul_commute(a: int, b: int)
    by (nonlinear_arith)
    ensures
        a * b == b * a,
{
}

proof fn lemma_mul_zero(a: int, b: int)
    by (nonlinear_arith)
    requires
        a == 0 || b == 0,
    ensures
        a * b == 0,
{
}

/// 1 when a neighbour lookup finds a live cell, else 0.
pub open spec fn alive_count(o: Option<Cell>) -> int {
    if o == Some(Cell::Alive) {
        1
    } else {
        0
    }
}

/// The transition rule for one cell. Note that it reads only the
/// neighbour count: exactly 3 live neighbours force a live cell whatever
/// it was before, exactly 2 leave the cell as it was, and any other count
/// forces a dead cell. (This deliberately differs from the canonical
/// birth/survival rule, which also consults the cell's own state on a
/// count of 3.)
pub open spec fn spec_evolve_rule(neighbors: int, current: Cell) -> Cell {
    if neighbors == 3 {
        Cell::Alive
    } else if neighbors == 2 {
        current
    } else {
        Cell::Dead
    }
}

/// Two grids with the same size and the same stored cells count
/// neighbours alike.
proof fn lemma_live_neighbors_congruence(a: Grid, b: Grid, row: int, column: int)
    requires
        a.spec_cells() == b.spec_cells(),
        a.spec_size() == b.spec_size(),
    ensures
        a.spec_live_neighbors(row, column) == b.spec_live_neighbors(row, column),
{
}

impl Clone for Grid {
    /// A deep copy; evolution snapshots the grid with it.
    fn clone(&self) -> (r: Grid)
        ensures
            r.spec_cells() == self.spec_cells(),
            r.spec_size() == self.spec_size(),
            r.spec_generation() == self.spec_generation(),
    {
        let mut cells: Vec<Cell> = Vec::new();
        let mut i: usize = 0;
        while i < self.cells.len()
            invariant
                i <= self.cells@.len(),
                cells@.len() == i,
                forall|k: int| 0 <= k < i ==> cells@[k] == self.cells@[k],
            decreases self.cells@.len() - i,
        {
            cells.push(self.cells[i]);
            i = i + 1;
        }
        proof {
            assert(cells@ =~= self.cells@);
        }
        Grid { cells, size: self.size, generation: self.generation }
    }
}

impl Grid {
    /// How many of the eight wrapped lookups around `(row, column)` find
    /// a live cell.
    pub open spec fn spec_live_neighbors(self, row: int, column: int) -> int {
        alive_count(self.spec_get_at(row - 1, column - 1)) + alive_count(
            self.spec_get_at(row - 1, column),
        ) + alive_count(self.spec_get_at(row - 1, column + 1)) + alive_count(
            self.spec_get_at(row, column - 1),
        ) + alive_count(self.spec_get_at(row, column + 1)) + alive_count(
            self.spec_get_at(row + 1, column - 1),
        ) + alive_count(self.spec_get_at(row + 1, column)) + alive_count(
            self.spec_get_at(row + 1, column + 1),
        )
    }

    /// The cells adjacent to `coordinate` on the toroidal surface, as the
    /// eight wrapped lookups around it. Any coordinate whose one-step
    /// offsets stay within the 8-bit range is accepted.
    fn siblings(&self, coordinate: Coordinate) -> (s: [Option<Cell>; 8])
        requires
            self.wf(),
            -127 <= coordinate.row_index as int <= 126,
            -127 <= coordinate.column_index as int <= 126,
        ensures
            s@.len() == 8,
            s@[0] == self.spec_get_at(
                coordinate.row_index - 1,
                coordinate.column_index - 1,
            ),
            s@[1] == self.spec_get_at(coordinate.row_index - 1, coordinate.column_index as int),
            s@[2] == self.spec_get_at(
                coordinate.row_index - 1,
                coordinate.column_index + 1,
            ),
            s@[3] == self.spec_get_at(coordinate.row_index as int, coordinate.column_index - 1),
            s@[4] == self.spec_get_at(coordinate.row_index as int, coordinate.column_index + 1),
            s@[5] == self.spec_get_at(
                coordinate.row_index + 1,
                coordinate.column_index - 1,
            ),
            s@[6] == self.spec_get_at(coordinate.row_index + 1, coordinate.column_index as int),
            s@[7] == self.spec_get_at(
                coordinate.row_index + 1,
                coordinate.column_index + 1,
            ),
    {
        let row = coordinate.row_index;
        let column = coordinate.column_index;
        [
            self.get(Coordinate { row_index: row - 1, column_index: column - 1 }),
            self.get(Coordinate { row_index: row - 1, column_index: column }),
            self.get(Coordinate { row_index: row - 1, column_index: column + 1 }),
            self.get(Coordinate { row_index: row, column_index: column - 1 }),
            self.get(Coordinate { row_index: row, column_index: column + 1 }),
            self.get(Coordinate { row_index: row + 1, column_index: column - 1 }),
            self.get(Coordinate { row_index: row + 1, column_index: column }),
            self.get(Coordinate { row_index: row + 1, column_index: column + 1 }),
        ]
    }

    /// Applies the transition rule to the cell at `coordinate`: the
    /// neighbour count is read from the snapshot `old_grid`, the write
    /// goes to `self`.
    fn evolve_cell(&mut self, coordinate: Coordinate, old_grid: &Grid)
        requires
            old(self).wf(),
            old_grid.wf(),
            old_grid.spec_size() == old(self).spec_size(),
            old(self).in_bounds(coordinate.row_index as int, coordinate.column_index as int),
        ensures
            final(self).wf(),
            final(self).spec_size() == old(self).spec_size(),
            final(self).spec_generation() == old(self).spec_generation(),
            final(self).cell_at(coordinate.row_index as int, coordinate.column_index as int)
                == spec_evolve_rule(
                old_grid.spec_live_neighbors(
                    coordinate.row_index as int,
                    coordinate.column_index as int,
                ),
                old(self).cell_at(coordinate.row_index as int, coordinate.column_index as int),
            ),
            forall|r: int, c: int|
                final(self).in_bounds(r, c) && !(r == coordinate.row_index as int && c
                    == coordinate.column_index as int) ==> final(self).cell_at(r, c) == old(
                    self,
                ).cell_at(r, c),
    {
        let sibs = old_grid.siblings(coordinate);
        let mut count: u8 = 0;
        if matches!(sibs[0], Some(Cell::Alive)) {
            count = count + 1;
        }
        if matches!(sibs[1], Some(Cell::Alive)) {
            count = count + 1;
        }
        if matches!(sibs[2], Some(Cell::Alive)) {
            count = count + 1;
        }
        if matches!(sibs[3], Some(Cell::Alive)) {
            count = count + 1;
        }
        if matches!(sibs[4], Some(Cell::Alive)) {
            count = count + 1;
        }
        if matches!(sibs[5], Some(Cell::Alive)) {
            count = count + 1;
        }
        if matches!(sibs[6], Some(Cell::Alive)) {
            count = count + 1;
        }
        if matches!(sibs[7], Some(Cell::Alive)) {
            count = count + 1;
        }
        proof {
            assert(count as int == old_grid.spec_live_neighbors(
                coordinate.row_index as int,
                coordinate.column_index as int,
            ));
        }
        match count {
            3 => self.set_alive(coordinate),
            2 => (),
            _ => self.set_dead(coordinate),
        }
    }

        /// Advances the generation counter by one, saturating at `u16::MAX`.
    fn bump_generation(&mut self)
        ensures
            final(self).spec_cells() == old(self).spec_cells(),
            final(self).spec_size() == old(self).spec_size(),
            final(self).spec_generation() == (if old(self).spec_generation() < u16::MAX {
                (old(self).spec_generation() + 1) as u16
            } else {
                u16::MAX
            }),
    {
        if self.generation < u16::MAX {
            self.generation = self.generation + 1;
        }
    }

    /// One evolution step. Every cell's neighbour count is taken from a
    /// snapshot of the grid as it was when the step began, so the pass is
    /// free of read-after-write interference; then the rule is applied
    /// cell by cell, and the generation counter advances by exactly one
    /// (saturating at `u16::MAX`). The size never changes.
    pub fn evolve(&mut self)
        requires
            old(self).wf(),
        ensures
            final(self).wf(),
            final(self).spec_size() == old(self).spec_size(),
            final(self).spec_generation() == (if old(self).spec_generation() < u16::MAX {
                (old(self).spec_generation() + 1) as u16
            } else {
                u16::MAX
            }),
            forall|r: int, c: int|
                final(self).in_bounds(r, c) ==> final(self).cell_at(r, c) == spec_evolve_rule(
                    old(self).spec_live_neighbors(r, c),
                    old(self).cell_at(r, c),
                ),
    {
        let old_grid = self.clone();
        let h: usize = if self.size.height > 0 {
            self.size.height as usize
        } else {
            0
        };
        let w: usize = if self.size.width > 0 {
            self.size.width as usize
        } else {
            0
        };
        let mut row: usize = 0;
        while row < h
            invariant
                self.wf(),
                old_grid.wf(),
                self.spec_size() == old(self).spec_size(),
                old_grid.spec_size() == old(self).spec_size(),
                old_grid.spec_cells() == old(self).spec_cells(),
                self.spec_generation() == old(self).spec_generation(),
                h == (if old(self).spec_height() > 0 {
                    old(self).spec_height()
                } else {
                    0
                }),
                w == (if old(self).spec_width() > 0 {
                    old(self).spec_width()
                } else {
                    0
                }),
                row <= h,
                forall|r: int, c: int|
                    self.in_bounds(r, c) ==> self.cell_at(r, c) == (if r < row {
                        spec_evolve_rule(
                            old(self).spec_live_neighbors(r, c),
                            old(self).cell_at(r, c),
                        )
                    } else {
                        old(self).cell_at(r, c)
                    }),
            decreases h - row,
        {
            let mut col: usize = 0;
            while col < w
                invariant
                    self.wf(),
                    old_grid.wf(),
                    self.spec_size() == old(self).spec_size(),
                    old_grid.spec_size() == old(self).spec_size(),
                    old_grid.spec_cells() == old(self).spec_cells(),
                    self.spec_generation() == old(self).spec_generation(),
                    h == (if old(self).spec_height() > 0 {
                        old(self).spec_height()
                    } else {
                        0
                    }),
                    w == (if old(self).spec_width() > 0 {
                        old(self).spec_width()
                    } else {
                        0
                    }),
                    row < h,
                    col <= w,
                    forall|r: int, c: int|
                        self.in_bounds(r, c) ==> self.cell_at(r, c) == (if r < row || (r == row
                            && c < col) {
                            spec_evolve_rule(
                                old(self).spec_live_neighbors(r, c),
                                old(self).cell_at(r, c),
                            )
                        } else {
                            old(self).cell_at(r, c)
                        }),
                decreases w - col,
            {
                let ghost prev = *self;
                self.evolve_cell(Coordinate::new(row as i8, col as i8), &old_grid);
                proof {
                    lemma_live_neighbors_congruence(
                        old_grid,
                        *old(self),
                        row as int,
                        col as int,
                    );
                    assert forall|r: int, c: int| self.in_bounds(r, c) implies self.cell_at(r, c)
                        == (if r < row || (r == row && c < col + 1) {
                        spec_evolve_rule(
                            old(self).spec_live_neighbors(r, c),
                            old(self).cell_at(r, c),
                        )
                    } else {
                        old(self).cell_at(r, c)
                    }) by {
                        if r == row && c == col {
                            assert(prev.cell_at(r, c) == old(self).cell_at(r, c));
                        } else {
                            assert(prev.in_bounds(r, c));
                            assert(self.cell_at(r, c) == prev.cell_at(r, c));
                        }
                    }
                }
                col = col + 1;
            }
            row = row + 1;
        }
        let ghost mid = *self;
        self.bump_generation();
        proof {
            assert forall|r: int, c: int| self.in_bounds(r, c) implies self.cell_at(r, c)
                == spec_evolve_rule(
                old(self).spec_live_neighbors(r, c),
                old(self).cell_at(r, c),
            ) by {
                assert(mid.in_bounds(r, c));
                assert(self.cell_at(r, c) == mid.cell_at(r, c));
            }
        }
    }
}

impl Grid {
    /// What rendering one position yields: the looked-up cell's glyph, or
    /// nothing when the wrapped lookup misses the rectangle.
    pub open spec fn spec_render_cell(self, row: int, column: int) -> Seq<char> {
        match self.spec_get_at(row, column) {
            Some(cell) => seq![cell.spec_glyph()],
            None => Seq::empty(),
        }
    }

    /// The first `column` positions of row `row`, rendered.
    pub open spec fn spec_render_row_to(self, row: int, column: int) -> Seq<char>
        decreases column,
    {
        if column <= 0 {
            Seq::empty()
        } else {
            self.spec_render_row_to(row, column - 1) + self.spec_render_cell(row, column - 1)
        }
    }

    /// The first `row` rows, rendered, each followed by a newline.
    pub open spec fn spec_render_to(self, row: int) -> Seq<char>
        decreases row,
    {
        if row <= 0 {
            Seq::empty()
        } else {
            self.spec_render_to(row - 1) + self.spec_render_row_to(row - 1, self.spec_width())
                + seq!['\n']
        }
    }

    /// The textual form of the grid: rows rendered top to bottom through
    /// the wrapping lookup, one glyph per found cell, a newline after
    /// each row.
    pub open spec fn spec_render(self) -> Seq<char> {
        self.spec_render_to(self.spec_height())
    }

    /// Renders the grid row-major, top row first, one glyph per cell,
    /// a newline after each row.
    pub fn render(&self) -> (out: String)
        requires
            self.wf(),
        ensures
            out@ == self.spec_render(),
    {
        let mut out = String::new();
        let mut row: i8 = 0;
        while row < self.size.height
            invariant
                self.wf(),
                0 <= row,
                row <= (if self.spec_height() > 0 {
                    self.spec_height()
                } else {
                    0
                }),
                out@ == self.spec_render_to(row as int),
            decreases self.spec_height() - row,
        {
            let mut col: i8 = 0;
            while col < self.size.width
                invariant
                    self.wf(),
                    0 <= row < self.spec_height(),
                    0 <= col,
                    col <= (if self.spec_width() > 0 {
                        self.spec_width()
                    } else {
                        0
                    }),
                    out@ == self.spec_render_to(row as int) + self.spec_render_row_to(
                        row as int,
                        col as int,
                    ),
                decreases self.spec_width() - col,
            {
                match self.get(Coordinate { row_index: row, column_index: col }) {
                    Some(cell) => {
                        out.append(cell.glyph());
                    },
                    None => {
                        proof {
                            assert(out@ + Seq::<char>::empty() =~= out@);
                        }
                    },
                }
                proof {
                    assert(out@ == self.spec_render_to(row as int) + self.spec_render_row_to(
                        row as int,
                        col + 1,
                    ));
                }
                col = col + 1;
            }
            out.append("\n");
            proof {
                reveal_strlit("\n");
                assert("\n"@ =~= seq!['\n']);
                if self.spec_width() <= 0 {
                    assert(self.spec_render_row_to(row as int, self.spec_width())
                        =~= Seq::<char>::empty());
                    assert(out@ =~= self.spec_render_to(row as int) + self.spec_render_row_to(
                        row as int,
                        self.spec_width(),
                    ) + seq!['\n']);
                }
                assert(out@ == self.spec_render_to(row + 1));
            }
            row = row + 1;
        }
        proof {
            if self.spec_height() <= 0 {
                assert(self.spec_render() =~= Seq::<char>::empty());
            }
        }
        out
    }

    /// Structural equality at the spec level: same dimensions, same
    /// stored cells, same generation.
    pub closed spec fn spec_eq(self, other: Grid) -> bool {
        self.spec_size() == other.spec_size() && self.spec_generation() == other.spec_generation()
            && self.spec_cells() == other.spec_cells()
    }
}

impl PartialEq for Grid {
    /// Grids are equal when their dimensions, cells and generation all
    /// agree.
    fn eq(&self, other: &Grid) -> (r: bool) {
        if !(self.size.width == other.size.width && self.size.height == other.size.height
            && self.generation == other.generation && self.cells.len() == other.cells.len()) {
            return false;
        }
        let mut i: usize = 0;
        while i < self.cells.len()
            invariant
                i <= self.cells@.len(),
                self.cells@.len() == other.cells@.len(),
                forall|k: int| 0 <= k < i ==> self.cells@[k] == other.cells@[k],
            decreases self.cells@.len() - i,
        {
            let a = self.cells[i];
            let b = other.cells[i];
            if !(a == b) {
                return false;
            }
            i = i + 1;
        }
        proof {
            assert(self.cells@ =~= other.cells@);
        }
        true
    }
}

impl vstd::std_specs::cmp::PartialEqSpecImpl for Grid {
    open spec fn obeys_eq_spec() -> bool {
        true
    }

    open spec fn eq_spec(&self, other: &Grid) -> bool {
        self.spec_eq(*other)
    }
}

/// A grid with a live cell at an in-range coordinate is not empty. With
/// the contract of `set_alive` this says that marking any in-range
/// coordinate alive flips `is_empty` to false, and it can flip back to
/// true only once every live cell has been set dead again.
pub proof fn lemma_alive_cell_not_empty(g: Grid, row: int, column: int)
    requires
        g.in_bounds(row, column),
        g.cell_at(row, column) == Cell::Alive,
    ensures
        !g.spec_is_empty(),
{
    assert(g.cell_at(row, column) != Cell::Dead);
}

impl Grid {
    /// The glyphs of the grid's rows, one inner sequence per row.
    spec fn glyph_rows(self) -> Seq<Seq<char>> {
        Seq::new(
            self.spec_height() as nat,
            |i: int|
                Seq::new(self.spec_width() as nat, |c: int| self.cell_at(i, c).spec_glyph()),
        )
    }
}

/// Every in-range position renders to exactly its cell's glyph, so a
/// rendered row is the row's glyphs.
proof fn lemma_render_row_full(g: Grid, row: int, column: int)
    requires
        g.wf(),
        0 <= row < g.spec_height(),
        0 <= column <= g.spec_width(),
    ensures
        g.spec_render_row_to(row, column).len() == column,
        forall|c: int|
            0 <= c < column ==> g.spec_render_row_to(row, column)[c] == g.cell_at(
                row,
                c,
            ).spec_glyph(),
    decreases column,
{
    if column > 0 {
        lemma_render_row_full(g, row, column - 1);
        assert(g.spec_get_at(row, column - 1) == Some(g.cell_at(row, column - 1)));
    }
}

/// The first `k` rendered rows are the first `k` glyph rows joined by
/// newlines, with one more newline at the end.
proof fn lemma_render_to_join(g: Grid, k: int)
    requires
        g.wf(),
        1 <= g.spec_height(),
        1 <= g.spec_width(),
        1 <= k <= g.spec_height(),
    ensures
        g.spec_render_to(k) =~= join_lines(g.glyph_rows().subrange(0, k)) + seq!['\n'],
    decreases k,
{
    let rows = g.glyph_rows();
    lemma_render_row_full(g, k - 1, g.spec_width());
    assert(g.spec_render_row_to(k - 1, g.spec_width()) =~= rows[k - 1]);
    if k == 1 {
        assert(g.spec_render_to(0) =~= Seq::<char>::empty());
        assert(join_lines(rows.subrange(0, 1)) == rows.subrange(0, 1)[0]);
        assert(g.spec_render_to(1) =~= join_lines(rows.subrange(0, 1)) + seq!['\n']);
    } else {
        lemma_render_to_join(g, k - 1);
        assert(rows.subrange(0, k) =~~= rows.subrange(0, k - 1).push(rows[k - 1]));
        lemma_join_lines_push(rows.subrange(0, k - 1), rows[k - 1]);
        assert(g.spec_render_to(k) =~= join_lines(rows.subrange(0, k)) + seq!['\n']);
    }
}

/// Rendering a grid and reading the text back as a pattern recovers the
/// same dimensions and the same live/dead layout. This holds for every
/// grid with at least one row and one column; a grid with a zero or
/// negative dimension renders no glyphs at all, so there is no layout
/// to read back.
pub proof fn lemma_render_parse_round_trip(g: Grid)
    requires
        g.wf(),
        1 <= g.spec_height(),
        1 <= g.spec_width(),
    ensures
        spec_pattern_height(g.spec_render()) == g.spec_height(),
        spec_pattern_width(g.spec_render()) == g.spec_width(),
        forall|r: int, c: int|
            g.in_bounds(r, c) ==> spec_pattern_cell(g.spec_render(), r, c) == g.cell_at(r, c),
{
    let h = g.spec_height();
    let w = g.spec_width();
    let rows = g.glyph_rows();
    let s = g.spec_render();
    let j = join_lines(rows);

    lemma_render_to_join(g, h);
    assert(rows.subrange(0, h) =~~= rows);
    assert(s =~= j + seq!['\n']);

    assert forall|i: int| 0 <= i < rows.len() implies rows[i].len() == w && rows[i].len()
        > 0 by {}
    assert forall|i: int, k: int|
        0 <= i < rows.len() && 0 <= k < rows[i].len() implies (rows[i][k] == '.' || rows[i][k]
        == 'O') by {
        assert(rows[i][k] == g.cell_at(i, k).spec_glyph());
    }

    // Trimming the rendered text strips exactly the final newline.
    lemma_join_lines_first(rows);
    lemma_join_lines_last(rows);
    assert(s[0] == j[0]);
    assert(!utils::spec_is_whitespace(s[0]));
    assert(trim_start(s) == s);
    assert(s.last() == '\n');
    assert(s.drop_last() =~= j);
    assert(trim_end(s) == trim_end(j));
    assert(!utils::spec_is_whitespace(j.last()));
    assert(trim_end(j) == j);
    assert(trimmed(s) == j);

    lemma_split_join_lines(rows);
    assert(split_lines(trimmed(s)) =~~= rows);

    assert forall|i: int| 0 <= i < rows.len() implies trimmed(rows[i]) == rows[i] by {
        assert(!utils::spec_is_whitespace(rows[i][0]));
        assert(!utils::spec_is_whitespace(rows[i].last()));
        assert(trim_start(rows[i]) == rows[i]);
        assert(trim_end(rows[i]) == rows[i]);
    }
    assert(spec_pattern_lines(s) =~~= rows);

    assert(spec_pattern_height(s) == h);
    assert(spec_pattern_width(s) == w);
    assert forall|r: int, c: int| g.in_bounds(r, c) implies spec_pattern_cell(s, r, c)
        == g.cell_at(r, c) by {
        assert(spec_pattern_lines(s)[r] == rows[r]);
        assert(rows[r][c] == g.cell_at(r, c).spec_glyph());
    }
}

} // verus!
