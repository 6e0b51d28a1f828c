//! A table of cell text, rows top to bottom and columns left to right.
//!
//! The grid is what the document parsers read. It carries no geometry: where
//! each column sits on the page is the clustering's business, and by the time
//! a parser holds a grid only the text of each cell matters.
use vstd::prelude::*;

verus! {

/// The text of a table, row-major, every row one cell per column.
#[derive(Debug, PartialEq, Eq)]
pub struct Grid {
    width: usize,
    cells: Vec<Vec<String>>,
}

/// The text of every cell, row by row.
pub open spec fn rows_view(cells: Seq<Vec<String>>) -> Seq<Seq<Seq<char>>> {
    cells.map_values(|row: Vec<String>| row@.map_values(|s: String| s@))
}

/// Whether every row holds exactly `width` cells.
pub open spec fn rectangular(rows: Seq<Seq<Seq<char>>>, width: nat) -> bool {
    forall|r: int| 0 <= r < rows.len() ==> (#[trigger] rows[r]).len() == width
}

/// The text at `row` and `col`, empty when either is out of range.
pub open spec fn cell_of(rows: Seq<Seq<Seq<char>>>, row: int, col: int) -> Seq<char> {
    if 0 <= row < rows.len() && 0 <= col < rows[row].len() {
        rows[row][col]
    } else {
        Seq::empty()
    }
}

impl View for Grid {
    type V = Seq<Seq<Seq<char>>>;

    closed spec fn view(&self) -> Seq<Seq<Seq<char>>> {
        rows_view(self.cells@)
    }
}

impl Grid {
    /// How many columns the grid has, which also holds for a grid of no rows.
    pub closed spec fn width(&self) -> nat {
        self.width as nat
    }

    /// Every row holds one cell per column.
    pub closed spec fn wf(&self) -> bool {
        rectangular(self@, self.width as nat)
    }

    /// The text at `row` and `col`, empty when either is out of range.
    pub open spec fn text_at(&self, row: int, col: int) -> Seq<char> {
        cell_of(self@, row, col)
    }

    /// Build a grid of `width` columns from its row-major cell text.
    pub fn new(width: usize, cells: Vec<Vec<String>>) -> (r: Grid)
        requires
            rectangular(rows_view(cells@), width as nat),
        ensures
            r@ == rows_view(cells@),
            r.width() == width,
            r.wf(),
    {
        Grid { width, cells }
    }

    /// Number of rows.
    pub fn row_count(&self) -> (r: usize)
        ensures
            r == self@.len(),
    {
        self.cells.len()
    }

    /// Number of columns.
    pub fn column_count(&self) -> (r: usize)
        ensures
            r == self.width(),
    {
        self.width
    }

    /// The text in the cell at `row` and `col`, or `""` if either is out of
    /// range.
    pub fn cell(&self, row: usize, col: usize) -> (r: &str)
        ensures
            r@ == self.text_at(row as int, col as int),
    {
        if row < self.cells.len() && col < self.cells[row].len() {
            proof {
                assert(self@[row as int] == self.cells@[row as int]@.map_values(|s: String| s@));
            }
            self.cells[row][col].as_str()
        } else {
            proof {
                if row < self.cells.len() {
                    assert(self@[row as int].len() == self.cells@[row as int]@.len());
                }
                reveal_strlit("");
            }
            ""
        }
    }
}

} // verus!
