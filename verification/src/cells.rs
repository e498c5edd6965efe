//! Display cells: how wide a terminal draws the clusters of a line.

use vstd::prelude::*;

use crate::columns;
use crate::columns::{col_to_sub_line, line_clusters, Cursor};
use crate::edits;
use crate::maps::PathMap;
use crate::text;
use crate::text::rope_len_lines;

verus! {

/// How many cells a cluster takes. Whoever draws says which clusters take
/// more than one, or none; all others take one.
pub struct CellWidths {
    pub other: PathMap<usize>,
}

impl View for CellWidths {
    type V = Map<Seq<char>, usize>;

    open spec fn view(&self) -> Map<Seq<char>, usize> {
        self.other.map()
    }
}

/// The cells that a cluster takes.
pub open spec fn width_of(w: Map<Seq<char>, usize>, cluster: Seq<char>) -> int {
    if w.dom().contains(cluster) {
        w[cluster] as int
    } else {
        1
    }
}

/// The cells that the clusters from `a` up to `b` take.
pub open spec fn cells_between(w: Map<Seq<char>, usize>, g: Seq<Seq<char>>, a: int, b: int) -> int
    decreases b - a,
{
    if a >= b {
        0
    } else {
        cells_between(w, g, a, b - 1) + width_of(w, g[b - 1])
    }
}

/// The cells on a line from column `a` up to column `b`, or up to the end
/// of the line, as far as can be counted.
pub open spec fn cells_on_line(
    w: Map<Seq<char>, usize>,
    t: Seq<char>,
    line: int,
    a: int,
    b: int,
) -> usize {
    let g = columns::line_cols(t, line);
    edits::least(cells_between(w, g, a, edits::least(b, g.len() as int)), usize::MAX as int) as usize
}

/// The cells before a column of a line.
pub open spec fn prefix_cells(w: Map<Seq<char>, usize>, t: Seq<char>, line: int, col: int) -> usize {
    cells_on_line(w, t, line, 0, col)
}

proof fn lemma_cells_grow(w: Map<Seq<char>, usize>, g: Seq<Seq<char>>, a: int, b: int, c: int)
    requires
        b <= c,
    ensures
        0 <= cells_between(w, g, a, b) <= cells_between(w, g, a, c),
    decreases c - a,
{
    if a < c {
        if b < c {
            lemma_cells_grow(w, g, a, b, c - 1);
        } else {
            lemma_cells_grow(w, g, a, c - 1, c - 1);
        }
    }
}

/// Where every cluster takes one cell, cells are columns.
pub proof fn narrow_clusters_take_a_cell_each(
    w: Map<Seq<char>, usize>,
    g: Seq<Seq<char>>,
    a: int,
    b: int,
)
    requires
        0 <= a <= b <= g.len(),
        forall|i: int| a <= i < b ==> width_of(w, #[trigger] g[i]) == 1,
    ensures
        cells_between(w, g, a, b) == b - a,
    decreases b - a,
{
    if a < b {
        narrow_clusters_take_a_cell_each(w, g, a, b - 1);
    }
}

impl CellWidths {
    /// Every cluster takes one cell.
    pub fn new() -> (w: CellWidths)
        ensures
            w@ == Map::<Seq<char>, usize>::empty(),
    {
        CellWidths { other: PathMap::new() }
    }

    /// Says how many cells a cluster takes.
    pub fn set(&mut self, cluster: String, cells: usize)
        ensures
            final(self)@ == old(self)@.insert(cluster@, cells),
    {
        self.other.insert(cluster, cells);
    }

    pub fn width(&self, cluster: &str) -> (n: usize)
        ensures
            n == width_of(self@, cluster@),
    {
        match self.other.get(cluster) {
            Some(n) => *n,
            None => 1,
        }
    }
}

/// Counts the cells on a line from column `from` up to column `to`.
pub fn line_cells(widths: &CellWidths, rope: &ropey::Rope, line: usize, from: usize, to: usize) -> (n:
    usize)
    ensures
        n == cells_on_line(
            widths@,
            text::rope_text(*rope),
            line as int,
            from as int,
            to as int,
        ),
{
    let ghost g = columns::line_cols(text::rope_text(*rope), line as int);
    let v = line_clusters(rope, line);
    let end: usize = if to < v.len() {
        to
    } else {
        v.len()
    };
    let mut i: usize = from;
    let mut n: usize = 0;
    while i < end
        invariant
            g == columns::line_cols(text::rope_text(*rope), line as int),
            end == edits::least(to as int, g.len() as int),
            v.len() == g.len(),
            forall|j: int| 0 <= j < v.len() ==> (#[trigger] v[j])@ == g[j],
            from <= i,
            i <= end || i == from,
            n == cells_between(widths@, g, from as int, i as int),
        decreases end - i,
    {
        let c: usize = widths.width(v[i].as_str());
        assert(v[i as int]@ == g[i as int]);
        match n.checked_add(c) {
            Some(m) => {
                n = m;
            },
            None => {
                proof {
                    lemma_cells_grow(widths@, g, from as int, i + 1, end as int);
                }
                return usize::MAX;
            },
        }
        i = i + 1;
    }
    n
}

/// The cells before a column of a line, counted.
pub fn prefix_display_width(widths: &CellWidths, rope: &ropey::Rope, line: usize, col: usize) -> (n:
    usize)
    ensures
        n == prefix_cells(widths@, text::rope_text(*rope), line as int, col as int),
{
    line_cells(widths, rope, line, 0, col)
}

/// What vertical moves aim for at a cursor: its distance from the start of
/// its row, in cells. Zero on a line that does not exist.
pub open spec fn aim(w: Map<Seq<char>, usize>, t: Seq<char>, c: Cursor, cols: int) -> usize {
    if c.line < text::line_count(t) {
        let len = columns::col_count(t, c.line as int);
        let start = columns::sub_start(columns::sub_of(c.col as int, len, cols), len, cols);
        cells_on_line(w, t, c.line as int, start, c.col as int)
    } else {
        0
    }
}

/// A cursor that aims for where it stands.
pub open spec fn aimed(w: Map<Seq<char>, usize>, t: Seq<char>, c: Cursor, cols: int) -> Cursor {
    Cursor { preferred_col: aim(w, t, c, cols), ..c }
}

/// Makes a cursor aim for the cell it stands on within its row.
pub fn refresh_preferred_col(
    cursor: &mut Cursor,
    rope: &ropey::Rope,
    content_cols: usize,
    widths: &CellWidths,
)
    ensures
        *final(cursor) == aimed(
            widths@,
            text::rope_text(*rope),
            *old(cursor),
            content_cols as int,
        ),
{
    if cursor.line >= rope_len_lines(rope) {
        cursor.preferred_col = 0;
        return;
    }
    let len: usize = columns::line_grapheme_len(rope, cursor.line);
    let (_, within) = col_to_sub_line(cursor.col, len, content_cols);
    let start: usize = cursor.col - within;
    cursor.preferred_col = line_cells(widths, rope, cursor.line, start, cursor.col);
}

/// On a line of narrow clusters a cursor aims for its column within its
/// row.
pub proof fn narrow_lines_are_aimed_at_by_columns(
    w: Map<Seq<char>, usize>,
    t: Seq<char>,
    c: Cursor,
    cols: int,
)
    requires
        c.line < text::line_count(t),
        c.col <= columns::col_count(t, c.line as int) <= usize::MAX,
        forall|i: int|
            0 <= i < columns::col_count(t, c.line as int) ==> width_of(
                w,
                #[trigger] columns::line_cols(t, c.line as int)[i],
            ) == 1,
    ensures
        aim(w, t, c, cols) == columns::within_sub(
            c.col as int,
            columns::col_count(t, c.line as int),
            cols,
        ),
{
    let g = columns::line_cols(t, c.line as int);
    let len = columns::col_count(t, c.line as int);
    let start = columns::sub_start(columns::sub_of(c.col as int, len, cols), len, cols);
    columns::column_in_sub_line(c.col as int, len, cols);
    narrow_clusters_take_a_cell_each(w, g, start, c.col as int);
}

/// The cells before a column are those before the column ahead of it and
/// the cells of the cluster between; a cluster of unknown width takes one.
pub proof fn cells_add_up_along_a_line(w: Map<Seq<char>, usize>, t: Seq<char>, line: int, col: int)
    requires
        0 <= col < columns::line_cols(t, line).len(),
        prefix_cells(w, t, line, col + 1) < usize::MAX,
    ensures
        ({
            let x = columns::line_cols(t, line)[col];
            &&& prefix_cells(w, t, line, 0) == 0
            &&& w.dom().contains(x) ==> prefix_cells(w, t, line, col + 1) == prefix_cells(
                w,
                t,
                line,
                col,
            ) + w[x]
            &&& !w.dom().contains(x) ==> prefix_cells(w, t, line, col + 1) == prefix_cells(
                w,
                t,
                line,
                col,
            ) + 1
        }),
{
    let g = columns::line_cols(t, line);
    lemma_cells_grow(w, g, 0, col, col + 1);
}

} // verus!
