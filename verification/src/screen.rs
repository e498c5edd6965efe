//! The terminal and how it is divided.

use vstd::prelude::*;

verus! {

/// Columns that the gutter takes before the first column of a buffer.
pub const GUTTER_WIDTH: usize = 2;

/// Columns at the right edge that are never written to.
pub const TRAILING_RESERVED_COLS: usize = 0;

/// Rows that the tab bar and the status bar take.
pub const BAR_ROWS: usize = 2;

/// The size of the terminal.
#[derive(Clone, Copy, Debug, PartialEq, Eq, Structural)]
pub struct Dims {
    pub cols: u16,
    pub rows: u16,
}

/// What is known of the terminal.
#[derive(Clone, Copy, Debug, PartialEq, Eq, Structural)]
pub struct Terminal {
    /// Absent until the terminal has reported its size.
    pub dims: Option<Dims>,
    /// The columns that the side panel takes when it is shown.
    pub side_cols: u16,
}

/// `a - b`, or zero.
pub open spec fn minus(a: int, b: int) -> int {
    if a >= b {
        a - b
    } else {
        0
    }
}

/// Rows of the editor body; the side panel has as many.
pub open spec fn body_rows_of(term: Terminal) -> int {
    match term.dims {
        Some(d) => minus(d.rows as int, BAR_ROWS as int),
        None => 0,
    }
}

/// Columns of buffer text that fit in one row.
pub open spec fn content_cols_of(term: Terminal, side_visible: bool) -> int {
    match term.dims {
        Some(d) => {
            let cols = if side_visible {
                minus(d.cols as int, term.side_cols as int)
            } else {
                d.cols as int
            };
            minus(minus(cols, GUTTER_WIDTH as int), TRAILING_RESERVED_COLS as int)
        },
        None => 0,
    }
}

pub fn body_rows(term: &Terminal) -> (n: usize)
    ensures
        n == body_rows_of(*term),
{
    match term.dims {
        Some(d) => (d.rows as usize).saturating_sub(BAR_ROWS),
        None => 0,
    }
}

/// Editor body content width in columns; zero while the size of the
/// terminal is unknown.
pub fn editor_content_cols(term: &Terminal, side_visible: bool) -> (n: usize)
    ensures
        n == content_cols_of(*term, side_visible),
{
    match term.dims {
        Some(d) => {
            let cols: usize = if side_visible {
                (d.cols as usize).saturating_sub(term.side_cols as usize)
            } else {
                d.cols as usize
            };
            cols.saturating_sub(GUTTER_WIDTH).saturating_sub(TRAILING_RESERVED_COLS)
        },
        None => 0,
    }
}

// ---------------------------------------------------------------------
// Laws
// ---------------------------------------------------------------------

/// The bars and the body fill the rows of the terminal, and the side panel,
/// the gutter and the text its columns; without a known size there is no
/// room.
pub proof fn the_screen_is_divided_up(term: Terminal, side_visible: bool)
    ensures
        term.dims is None ==> body_rows_of(term) == 0 && content_cols_of(term, side_visible) == 0,
        term.dims is Some ==> ({
            let d = term.dims->0;
            let side = if side_visible {
                term.side_cols as int
            } else {
                0
            };
            &&& d.rows >= 2 ==> body_rows_of(term) + 2 == d.rows
            &&& d.rows < 2 ==> body_rows_of(term) == 0
            &&& d.cols >= side + 2 ==> content_cols_of(term, side_visible) + side + 2 == d.cols
            &&& d.cols < side + 2 ==> content_cols_of(term, side_visible) == 0
        }),
{
}

} // verus!
