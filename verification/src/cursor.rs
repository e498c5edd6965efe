//! Cursor movement: geometry over the text of a buffer.

use vstd::prelude::*;

use crate::chars::is_word_char;
use crate::columns;
use crate::columns::{
    col_to_sub_line, line_clusters, line_grapheme_len, sub_line_count, sub_line_range, Cursor,
    Scroll,
};
use crate::text;
use crate::text::rope_len_lines;
use crate::chars;

verus! {

/// The ways a cursor can move.
#[derive(Clone, Copy, Debug, PartialEq, Eq, Structural)]
pub enum Move {
    Up,
    Down,
    Left,
    Right,
    LineStart,
    LineEnd,
    PageUp,
    PageDown,
    FileStart,
    FileEnd,
    WordLeft,
    WordRight,
}

// ---------------------------------------------------------------------
// Visual rows
// ---------------------------------------------------------------------

/// The rows that line `k` takes.
pub open spec fn rows_of(t: Seq<char>, k: int, cols: int) -> int {
    columns::sub_count(columns::col_count(t, k), cols)
}

/// The row `n` rows above, or the first row.
pub open spec fn step_up(t: Seq<char>, cols: int, line: int, sub: int, n: int) -> (int, int)
    decreases n,
{
    if n <= 0 {
        (line, sub)
    } else if sub > 0 {
        step_up(t, cols, line, sub - 1, n - 1)
    } else if line > 0 {
        step_up(t, cols, line - 1, rows_of(t, line - 1, cols) - 1, n - 1)
    } else {
        (line, sub)
    }
}

/// The row `n` rows below, or the last row.
pub open spec fn step_down(t: Seq<char>, cols: int, line: int, sub: int, n: int) -> (int, int)
    decreases n,
{
    if n <= 0 {
        (line, sub)
    } else if sub + 1 < rows_of(t, line, cols) {
        step_down(t, cols, line, sub + 1, n - 1)
    } else if line + 1 < text::line_count(t) {
        step_down(t, cols, line + 1, 0, n - 1)
    } else {
        (line, sub)
    }
}

/// How many rows lie above line `k`.
pub open spec fn rows_above(t: Seq<char>, cols: int, k: int) -> int
    decreases k,
{
    if k <= 0 {
        0
    } else {
        rows_above(t, cols, k - 1) + rows_of(t, k - 1, cols)
    }
}

/// The number of a row, counted from the top of the text.
pub open spec fn row_number(t: Seq<char>, cols: int, line: int, sub: int) -> int {
    rows_above(t, cols, line) + sub
}

/// A row that exists.
pub open spec fn row_exists(t: Seq<char>, cols: int, line: int, sub: int) -> bool {
    0 <= line < text::line_count(t) && 0 <= sub < rows_of(t, line, cols)
}

pub proof fn lemma_rows_of(t: Seq<char>, k: int, cols: int)
    ensures
        rows_of(t, k, cols) >= 1,
{
    if columns::wraps(columns::col_count(t, k), cols) {
        columns::sub_lines_fit(columns::col_count(t, k), cols);
    }
}

pub proof fn lemma_rows_above(t: Seq<char>, cols: int, a: int, b: int)
    requires
        0 <= a <= b,
    ensures
        0 <= rows_above(t, cols, a) <= rows_above(t, cols, b),
        a < b ==> rows_above(t, cols, a) + rows_of(t, a, cols) <= rows_above(t, cols, b),
    decreases b,
{
    if a < b {
        lemma_rows_above(t, cols, a, b - 1);
        lemma_rows_of(t, b - 1, cols);
    } else if a > 0 {
        lemma_rows_above(t, cols, a - 1, b - 1);
        lemma_rows_of(t, b - 1, cols);
    }
}

/// Moving up `n` rows lands on an existing row exactly `n` rows higher, or
/// on the first row when there are fewer.
pub proof fn step_up_is_by_rows(t: Seq<char>, cols: int, line: int, sub: int, n: int)
    requires
        row_exists(t, cols, line, sub),
        0 <= n,
    ensures
        ({
            let (l, s) = step_up(t, cols, line, sub, n);
            &&& row_exists(t, cols, l, s)
            &&& row_number(t, cols, l, s) == if row_number(t, cols, line, sub) >= n {
                row_number(t, cols, line, sub) - n
            } else {
                0
            }
        }),
    decreases n,
{
    lemma_rows_above(t, cols, 0, line);
    if n > 0 {
        if sub > 0 {
            step_up_is_by_rows(t, cols, line, sub - 1, n - 1);
        } else if line > 0 {
            lemma_rows_of(t, line - 1, cols);
            step_up_is_by_rows(t, cols, line - 1, rows_of(t, line - 1, cols) - 1, n - 1);
        }
    }
}

/// The number of the last row.
pub open spec fn last_row(t: Seq<char>, cols: int) -> int {
    rows_above(t, cols, text::line_count(t) as int) - 1
}

/// Moving down `n` rows lands on an existing row exactly `n` rows lower, or
/// on the last row when there are fewer.
pub proof fn step_down_is_by_rows(t: Seq<char>, cols: int, line: int, sub: int, n: int)
    requires
        row_exists(t, cols, line, sub),
        0 <= n,
    ensures
        ({
            let (l, s) = step_down(t, cols, line, sub, n);
            &&& row_exists(t, cols, l, s)
            &&& row_number(t, cols, l, s) == if row_number(t, cols, line, sub) + n <= last_row(
                t,
                cols,
            ) {
                row_number(t, cols, line, sub) + n
            } else {
                last_row(t, cols)
            }
        }),
    decreases n,
{
    lemma_rows_above(t, cols, line, text::line_count(t) as int);
    if n > 0 {
        if sub + 1 < rows_of(t, line, cols) {
            step_down_is_by_rows(t, cols, line, sub + 1, n - 1);
        } else if line + 1 < text::line_count(t) {
            lemma_rows_of(t, line + 1, cols);
            step_down_is_by_rows(t, cols, line + 1, 0, n - 1);
        }
    }
}

/// A cursor on a row, at the column it aims for as far as the row allows.
/// On a row that wraps, the column at the wrap belongs to the next row, so
/// the last column that can be stood on is the one before.
pub open spec fn landed(t: Seq<char>, cols: int, line: int, sub: int, aim: usize) -> Cursor {
    let len = columns::col_count(t, line);
    let start = columns::sub_start(sub, len, cols);
    let width = columns::sub_end(sub, len, cols) - start;
    let most = if sub + 1 < columns::sub_count(len, cols) {
        width - 1
    } else {
        width
    };
    Cursor {
        line: line as usize,
        col: (start + if aim < most {
            aim as int
        } else {
            most
        }) as usize,
        preferred_col: aim,
    }
}

/// The row that a cursor stands on.
pub open spec fn cursor_sub(t: Seq<char>, c: Cursor, cols: int) -> int {
    columns::sub_of(c.col as int, columns::col_count(t, c.line as int), cols)
}

/// A cursor that lands on a row stands on that row.
pub proof fn landing_stays_on_row(t: Seq<char>, cols: int, line: int, sub: int, aim: usize)
    requires
        row_exists(t, cols, line, sub),
        columns::col_count(t, line) <= usize::MAX,
        line <= usize::MAX,
    ensures
        landed(t, cols, line, sub, aim).line == line,
        landed(t, cols, line, sub, aim).col <= columns::col_count(t, line),
        cursor_sub(t, landed(t, cols, line, sub, aim), cols) == sub,
{
    let len = columns::col_count(t, line);
    columns::lemma_sub_range(sub, len, cols);
    let c = landed(t, cols, line, sub, aim);
    let start = columns::sub_start(sub, len, cols);
    let end = columns::sub_end(sub, len, cols);
    if columns::wraps(len, cols) {
        columns::sub_lines_fit(len, cols);
        let w = cols - 1;
        let col = c.col as int;
        let n = columns::sub_count(len, cols);
        assert(start <= col <= end);
        if sub + 1 < n {
            assert(col < end);
            assert((sub + 1) * w == sub * w + w) by (nonlinear_arith);
            assert(col / w == sub) by (nonlinear_arith)
                requires
                    w >= 1,
                    sub * w <= col < sub * w + w,
            ;
        } else {
            assert(col / w >= sub) by (nonlinear_arith)
                requires
                    w >= 1,
                    sub * w <= col,
            ;
        }
    }
}

// ---------------------------------------------------------------------
// Words
// ---------------------------------------------------------------------

/// The first column from `col` on that starts with a word character, or
/// the number of columns.
pub open spec fn word_from(g: Seq<Seq<char>>, col: int) -> int
    decreases g.len() - col,
{
    if col < g.len() && !columns::word_col(g, col) {
        word_from(g, col + 1)
    } else {
        col
    }
}

/// The first column from `col` on that does not start with a word
/// character.
pub open spec fn word_end(g: Seq<Seq<char>>, col: int) -> int
    decreases g.len() - col,
{
    if col < g.len() && columns::word_col(g, col) {
        word_end(g, col + 1)
    } else {
        col
    }
}

/// The end of the last word before `col`, or zero.
pub open spec fn word_before(g: Seq<Seq<char>>, col: int) -> int
    decreases col,
{
    if col > 0 && !columns::word_col(g, col - 1) {
        word_before(g, col - 1)
    } else {
        col
    }
}

/// The start of the word that ends at `col`.
pub open spec fn word_start(g: Seq<Seq<char>>, col: int) -> int
    decreases col,
{
    if col > 0 && columns::word_col(g, col - 1) {
        word_start(g, col - 1)
    } else {
        col
    }
}

/// Where the next word ends: on this line, on a later one, or else at the
/// end of the text.
pub open spec fn next_word(t: Seq<char>, line: int, col: int) -> (int, int)
    decreases text::line_count(t) - line,
{
    let g = columns::line_cols(t, line);
    let w = word_from(g, col);
    if w < g.len() {
        (line, word_end(g, w))
    } else if line + 1 < text::line_count(t) {
        next_word(t, line + 1, 0)
    } else {
        (line, g.len() as int)
    }
}

/// Where the previous word starts: on this line, on an earlier one, or
/// else the start of the text.
pub open spec fn prev_word(t: Seq<char>, line: int, col: int) -> (int, int)
    decreases line, col,
{
    let g = columns::line_cols(t, line);
    let w = word_before(g, col);
    if w > 0 {
        (line, word_start(g, w))
    } else if line > 0 {
        prev_word(t, line - 1, columns::col_count(t, line - 1))
    } else {
        (0, 0)
    }
}

// ---------------------------------------------------------------------
// Moves
// ---------------------------------------------------------------------

/// A cursor moved to a column, aiming for it.
pub open spec fn placed(t: Seq<char>, cols: int, line: int, col: int) -> Cursor {
    Cursor {
        line: line as usize,
        col: col as usize,
        preferred_col: columns::within_sub(col, columns::col_count(t, line), cols) as usize,
    }
}

/// The number of the last line.
pub open spec fn last_line(t: Seq<char>) -> int {
    text::line_count(t) - 1
}

/// The rows that a page move crosses.
pub open spec fn page(body_rows: int) -> int {
    if body_rows > 1 {
        body_rows
    } else {
        1
    }
}

/// The cursor after a move.
///
/// Up, down and the page moves go by rows and keep the column that is
/// aimed for. The other moves aim for where they land. Left and right wrap
/// over line ends, and stop at the ends of the text.
pub open spec fn moved(t: Seq<char>, c: Cursor, m: Move, body_rows: int, cols: int) -> Cursor {
    let line = c.line as int;
    let col = c.col as int;
    let sub = cursor_sub(t, c, cols);
    let len = columns::col_count(t, line);
    match m {
        Move::Up => {
            let (l, s) = step_up(t, cols, line, sub, 1);
            landed(t, cols, l, s, c.preferred_col)
        },
        Move::Down => {
            let (l, s) = step_down(t, cols, line, sub, 1);
            landed(t, cols, l, s, c.preferred_col)
        },
        Move::PageUp => {
            let (l, s) = step_up(t, cols, line, sub, page(body_rows));
            landed(t, cols, l, s, c.preferred_col)
        },
        Move::PageDown => {
            let (l, s) = step_down(t, cols, line, sub, page(body_rows));
            landed(t, cols, l, s, c.preferred_col)
        },
        Move::Left => if col > 0 {
            placed(t, cols, line, col - 1)
        } else if line > 0 {
            placed(t, cols, line - 1, columns::col_count(t, line - 1))
        } else {
            placed(t, cols, 0, 0)
        },
        Move::Right => if col < len {
            placed(t, cols, line, col + 1)
        } else if line < last_line(t) {
            placed(t, cols, line + 1, 0)
        } else {
            placed(t, cols, line, len)
        },
        Move::LineStart => placed(t, cols, line, 0),
        Move::LineEnd => placed(t, cols, line, len),
        Move::FileStart => placed(t, cols, 0, 0),
        Move::FileEnd => placed(t, cols, last_line(t), columns::col_count(t, last_line(t))),
        Move::WordLeft => {
            let (l, k) = prev_word(t, line, col);
            placed(t, cols, l, k)
        },
        Move::WordRight => {
            let (l, k) = next_word(t, line, col);
            placed(t, cols, l, k)
        },
    }
}

/// A cursor anywhere on a line, with its move target: the last sub-line of
/// a line counts as existing even where the cursor's line does not.
fn visual_step_up(c: Cursor, rope: &ropey::Rope, content_cols: usize, steps: usize) -> (r: Cursor)
    ensures
        ({
            let t = text::rope_text(*rope);
            let cols = content_cols as int;
            let (l, s) = step_up(t, cols, c.line as int, cursor_sub(t, c, cols), steps as int);
            r == landed(t, cols, l, s, c.preferred_col)
        }),
{
    let ghost t = text::rope_text(*rope);
    let ghost cols = content_cols as int;
    let mut line: usize = c.line;
    let len: usize = line_grapheme_len(rope, line);
    let (first, _) = col_to_sub_line(c.col, len, content_cols);
    let mut sub: usize = first;
    let mut left: usize = steps;
    while left > 0
        invariant
            t == text::rope_text(*rope),
            cols == content_cols,
            sub < rows_of(t, line as int, cols),
            step_up(t, cols, c.line as int, cursor_sub(t, c, cols), steps as int) == step_up(
                t,
                cols,
                line as int,
                sub as int,
                left as int,
            ),
        decreases left,
    {
        if sub > 0 {
            sub = sub - 1;
        } else if line > 0 {
            line = line - 1;
            let above: usize = line_grapheme_len(rope, line);
            let n: usize = sub_line_count(above, content_cols);
            sub = n - 1;
        } else {
            return land_on_sub_line(line, sub, c.preferred_col, rope, content_cols);
        }
        left = left - 1;
    }
    land_on_sub_line(line, sub, c.preferred_col, rope, content_cols)
}

fn visual_step_down(c: Cursor, rope: &ropey::Rope, content_cols: usize, steps: usize) -> (r: Cursor)
    ensures
        ({
            let t = text::rope_text(*rope);
            let cols = content_cols as int;
            let (l, s) = step_down(t, cols, c.line as int, cursor_sub(t, c, cols), steps as int);
            r == landed(t, cols, l, s, c.preferred_col)
        }),
{
    let ghost t = text::rope_text(*rope);
    let ghost cols = content_cols as int;
    let count: usize = rope_len_lines(rope);
    let mut line: usize = c.line;
    let len: usize = line_grapheme_len(rope, line);
    let (first, _) = col_to_sub_line(c.col, len, content_cols);
    let mut sub: usize = first;
    let mut left: usize = steps;
    while left > 0
        invariant
            t == text::rope_text(*rope),
            cols == content_cols,
            count == text::line_count(t),
            sub < rows_of(t, line as int, cols),
            step_down(t, cols, c.line as int, cursor_sub(t, c, cols), steps as int) == step_down(
                t,
                cols,
                line as int,
                sub as int,
                left as int,
            ),
        decreases left,
    {
        let here: usize = line_grapheme_len(rope, line);
        let n: usize = sub_line_count(here, content_cols);
        if sub < n - 1 {
            sub = sub + 1;
        } else if line < count - 1 {
            line = line + 1;
            sub = 0;
            proof {
                lemma_rows_of(t, line as int, cols);
            }
        } else {
            return land_on_sub_line(line, sub, c.preferred_col, rope, content_cols);
        }
        left = left - 1;
    }
    land_on_sub_line(line, sub, c.preferred_col, rope, content_cols)
}

fn land_on_sub_line(
    line: usize,
    sub: usize,
    preferred_col: usize,
    rope: &ropey::Rope,
    content_cols: usize,
) -> (r: Cursor)
    requires
        sub < rows_of(text::rope_text(*rope), line as int, content_cols as int),
    ensures
        r == landed(
            text::rope_text(*rope),
            content_cols as int,
            line as int,
            sub as int,
            preferred_col,
        ),
{
    let len: usize = line_grapheme_len(rope, line);
    let (start, end) = sub_line_range(sub, len, content_cols);
    let width: usize = end - start;
    let count: usize = sub_line_count(len, content_cols);
    proof {
        columns::lemma_sub_range(sub as int, len as int, content_cols as int);
    }
    let most: usize = if sub < count - 1 { width - 1 } else { width };
    let within: usize = if preferred_col < most { preferred_col } else { most };
    Cursor { line, col: start + within, preferred_col }
}

/// Places the cursor and makes it aim for where it stands.
fn horizontal(rope: &ropey::Rope, line: usize, col: usize, content_cols: usize) -> (r: Cursor)
    ensures
        r == placed(text::rope_text(*rope), content_cols as int, line as int, col as int),
{
    let len: usize = line_grapheme_len(rope, line);
    let (_, within) = col_to_sub_line(col, len, content_cols);
    Cursor { line, col, preferred_col: within }
}

/// Whether the cluster at a column starts with a word character.
fn word_at_col(v: &Vec<String>, col: usize, Ghost(g): Ghost<Seq<Seq<char>>>) -> (r: bool)
    requires
        v.len() == g.len(),
        col < v.len(),
        forall|i: int| 0 <= i < v.len() ==> (#[trigger] v[i])@ == g[i],
    ensures
        r == columns::word_col(g, col as int),
{
    let s = v[col].as_str();
    assert(v[col as int]@ == g[col as int]);
    s.unicode_len() > 0 && is_word_char(s.get_char(0))
}

fn word_boundary_fwd(rope: &ropey::Rope, from_line: usize, from_col: usize) -> (r: (usize, usize))
    ensures
        ({
            let (l, k) = next_word(text::rope_text(*rope), from_line as int, from_col as int);
            r.0 == l && r.1 == k
        }),
{
    let ghost t = text::rope_text(*rope);
    let count: usize = rope_len_lines(rope);
    let mut line: usize = from_line;
    let mut col: usize = from_col;
    loop
        invariant
            t == text::rope_text(*rope),
            count == text::line_count(t),
            next_word(t, from_line as int, from_col as int) == next_word(
                t,
                line as int,
                col as int,
            ),
        decreases count - line,
    {
        let v = line_clusters(rope, line);
        let ghost g = columns::line_cols(t, line as int);
        let ghost start = col as int;
        let len: usize = v.len();
        while col < len && !word_at_col(&v, col, Ghost(g))
            invariant
                len == v.len(),
                v.len() == g.len(),
                forall|i: int| 0 <= i < v.len() ==> (#[trigger] v[i])@ == g[i],
                word_from(g, start) == word_from(g, col as int),
            decreases len - col,
        {
            col = col + 1;
        }
        if col >= len {
            if line >= count - 1 {
                return (line, len);
            }
            line = line + 1;
            col = 0;
            continue;
        }
        let ghost at = col as int;
        while col < len && word_at_col(&v, col, Ghost(g))
            invariant
                len == v.len(),
                v.len() == g.len(),
                forall|i: int| 0 <= i < v.len() ==> (#[trigger] v[i])@ == g[i],
                word_end(g, at) == word_end(g, col as int),
            decreases len - col,
        {
            col = col + 1;
        }
        return (line, col);
    }
}

fn word_boundary_back(rope: &ropey::Rope, from_line: usize, from_col: usize) -> (r: (usize, usize))
    ensures
        ({
            let (l, k) = prev_word(text::rope_text(*rope), from_line as int, from_col as int);
            r.0 == l && r.1 == k
        }),
{
    let ghost t = text::rope_text(*rope);
    let mut line: usize = from_line;
    let mut col: usize = from_col;
    loop
        invariant
            t == text::rope_text(*rope),
            prev_word(t, from_line as int, from_col as int) == prev_word(
                t,
                line as int,
                col as int,
            ),
        decreases line,
    {
        let v = line_clusters(rope, line);
        let ghost g = columns::line_cols(t, line as int);
        let ghost start = col as int;
        while col > 0 && !(col - 1 < v.len() && word_at_col(&v, col - 1, Ghost(g)))
            invariant
                v.len() == g.len(),
                forall|i: int| 0 <= i < v.len() ==> (#[trigger] v[i])@ == g[i],
                word_before(g, start) == word_before(g, col as int),
            decreases col,
        {
            col = col - 1;
        }
        if col == 0 {
            if line == 0 {
                return (0, 0);
            }
            line = line - 1;
            col = line_grapheme_len(rope, line);
            continue;
        }
        let ghost at = col as int;
        while col > 0 && (col - 1 < v.len() && word_at_col(&v, col - 1, Ghost(g)))
            invariant
                v.len() == g.len(),
                forall|i: int| 0 <= i < v.len() ==> (#[trigger] v[i])@ == g[i],
                word_start(g, at) == word_start(g, col as int),
            decreases col,
        {
            col = col - 1;
        }
        return (line, col);
    }
}

/// The cursor after a move over the text of a rope.
pub fn apply_move(
    c: Cursor,
    rope: &ropey::Rope,
    m: Move,
    body_rows: usize,
    content_cols: usize,
) -> (r: Cursor)
    ensures
        r == moved(text::rope_text(*rope), c, m, body_rows as int, content_cols as int),
{
    let ghost t = text::rope_text(*rope);
    let count: usize = rope_len_lines(rope);
    let last: usize = count - 1;
    let rows: usize = if body_rows > 1 { body_rows } else { 1 };
    match m {
        Move::Up => visual_step_up(c, rope, content_cols, 1),
        Move::Down => visual_step_down(c, rope, content_cols, 1),
        Move::PageUp => visual_step_up(c, rope, content_cols, rows),
        Move::PageDown => visual_step_down(c, rope, content_cols, rows),
        Move::Left => {
            if c.col > 0 {
                horizontal(rope, c.line, c.col - 1, content_cols)
            } else if c.line > 0 {
                let prev: usize = c.line - 1;
                horizontal(rope, prev, line_grapheme_len(rope, prev), content_cols)
            } else {
                horizontal(rope, 0, 0, content_cols)
            }
        },
        Move::Right => {
            let len: usize = line_grapheme_len(rope, c.line);
            if c.col < len {
                horizontal(rope, c.line, c.col + 1, content_cols)
            } else if c.line < last {
                horizontal(rope, c.line + 1, 0, content_cols)
            } else {
                horizontal(rope, c.line, len, content_cols)
            }
        },
        Move::LineStart => horizontal(rope, c.line, 0, content_cols),
        Move::LineEnd => horizontal(rope, c.line, line_grapheme_len(rope, c.line), content_cols),
        Move::FileStart => horizontal(rope, 0, 0, content_cols),
        Move::FileEnd => horizontal(rope, last, line_grapheme_len(rope, last), content_cols),
        Move::WordLeft => {
            let (line, col) = word_boundary_back(rope, c.line, c.col);
            horizontal(rope, line, col, content_cols)
        },
        Move::WordRight => {
            let (line, col) = word_boundary_fwd(rope, c.line, c.col);
            horizontal(rope, line, col, content_cols)
        },
    }
}

// ---------------------------------------------------------------------
// Scrolling
// ---------------------------------------------------------------------

/// The rows from one row to another, counted line by line.
pub open spec fn rows_from(
    t: Seq<char>,
    cols: int,
    line: int,
    sub: int,
    to_line: int,
    to_sub: int,
) -> int
    decreases to_line - line,
{
    if line < to_line {
        let n = rows_of(t, line, cols);
        (if n > sub {
            n - sub
        } else {
            0
        }) + rows_from(t, cols, line + 1, 0, to_line, to_sub)
    } else if to_sub > sub {
        to_sub - sub
    } else {
        0
    }
}

/// The scroll position after the cursor moved: unchanged while the cursor
/// is in view, else moved just far enough to bring it back.
pub open spec fn scrolled(s: Scroll, c: Cursor, body_rows: int, t: Seq<char>, cols: int) -> Scroll {
    let sub = cursor_sub(t, c, cols);
    if body_rows == 0 {
        s
    } else if c.line < s.top || (c.line == s.top && sub < s.top_sub_line) {
        Scroll { top: c.line, top_sub_line: sub as usize }
    } else {
        let rows = rows_from(t, cols, s.top as int, s.top_sub_line as int, c.line as int, sub);
        if rows < body_rows {
            s
        } else {
            let far = if rows <= usize::MAX {
                rows
            } else {
                usize::MAX as int
            };
            let (l, k) = step_down(t, cols, s.top as int, s.top_sub_line as int, far + 1 - body_rows);
            Scroll { top: l as usize, top_sub_line: k as usize }
        }
    }
}

proof fn lemma_rows_from_nonneg(
    t: Seq<char>,
    cols: int,
    line: int,
    sub: int,
    to_line: int,
    to_sub: int,
)
    ensures
        rows_from(t, cols, line, sub, to_line, to_sub) >= 0,
    decreases to_line - line,
{
    if line < to_line {
        lemma_rows_from_nonneg(t, cols, line + 1, 0, to_line, to_sub);
    }
}

fn rows_between(
    from: (usize, usize),
    to: (usize, usize),
    rope: &ropey::Rope,
    content_cols: usize,
) -> (r: usize)
    ensures
        ({
            let n = rows_from(
                text::rope_text(*rope),
                content_cols as int,
                from.0 as int,
                from.1 as int,
                to.0 as int,
                to.1 as int,
            );
            r == if n <= usize::MAX {
                n
            } else {
                usize::MAX as int
            }
        }),
{
    let ghost t = text::rope_text(*rope);
    let ghost cols = content_cols as int;
    let ghost total = rows_from(t, cols, from.0 as int, from.1 as int, to.0 as int, to.1 as int);
    let mut row: usize = 0;
    let mut line: usize = from.0;
    let mut start: usize = from.1;
    let ghost mut exact: int = 0;
    while line < to.0
        invariant
            t == text::rope_text(*rope),
            cols == content_cols,
            exact >= 0,
            row == if exact <= usize::MAX {
                exact
            } else {
                usize::MAX as int
            },
            total == exact + rows_from(t, cols, line as int, start as int, to.0 as int, to.1 as int),
        decreases to.0 - line,
    {
        let len: usize = line_grapheme_len(rope, line);
        let n: usize = sub_line_count(len, content_cols);
        let here: usize = n.saturating_sub(start);
        row = row.saturating_add(here);
        proof {
            exact = exact + here as int;
        }
        line = line + 1;
        start = 0;
    }
    row.saturating_add(to.1.saturating_sub(start))
}

fn scroll_forward(s: Scroll, rope: &ropey::Rope, content_cols: usize, steps: usize) -> (r: Scroll)
    ensures
        ({
            let (l, k) = step_down(
                text::rope_text(*rope),
                content_cols as int,
                s.top as int,
                s.top_sub_line as int,
                steps as int,
            );
            r.top == l && r.top_sub_line == k
        }),
{
    let ghost t = text::rope_text(*rope);
    let ghost cols = content_cols as int;
    let count: usize = rope_len_lines(rope);
    let mut line: usize = s.top;
    let mut sub: usize = s.top_sub_line;
    let mut left: usize = steps;
    while left > 0
        invariant
            t == text::rope_text(*rope),
            cols == content_cols,
            count == text::line_count(t),
            step_down(t, cols, s.top as int, s.top_sub_line as int, steps as int) == step_down(
                t,
                cols,
                line as int,
                sub as int,
                left as int,
            ),
        decreases left,
    {
        let here: usize = line_grapheme_len(rope, line);
        let n: usize = sub_line_count(here, content_cols);
        if sub < n - 1 {
            sub = sub + 1;
        } else if line < count - 1 {
            line = line + 1;
            sub = 0;
        } else {
            return Scroll { top: line, top_sub_line: sub };
        }
        left = left - 1;
    }
    Scroll { top: line, top_sub_line: sub }
}

/// Moves the scroll position so that the cursor's row is in view.
pub fn adjust_scroll(
    s: Scroll,
    c: Cursor,
    body_rows: usize,
    rope: &ropey::Rope,
    content_cols: usize,
) -> (r: Scroll)
    ensures
        r == scrolled(s, c, body_rows as int, text::rope_text(*rope), content_cols as int),
{
    if body_rows == 0 {
        return s;
    }
    let len: usize = line_grapheme_len(rope, c.line);
    let (sub, _) = col_to_sub_line(c.col, len, content_cols);
    if c.line < s.top || (c.line == s.top && sub < s.top_sub_line) {
        return Scroll { top: c.line, top_sub_line: sub };
    }
    let rows: usize = rows_between((s.top, s.top_sub_line), (c.line, sub), rope, content_cols);
    proof {
        lemma_rows_from_nonneg(
            text::rope_text(*rope),
            content_cols as int,
            s.top as int,
            s.top_sub_line as int,
            c.line as int,
            sub as int,
        );
    }
    if rows < body_rows {
        return s;
    }
    scroll_forward(s, rope, content_cols, rows - body_rows + 1)
}

pub proof fn lemma_rows_from(t: Seq<char>, cols: int, line: int, sub: int, to_line: int, to_sub: int)
    requires
        row_exists(t, cols, line, sub),
        row_exists(t, cols, to_line, to_sub),
        line < to_line || (line == to_line && sub <= to_sub),
    ensures
        rows_from(t, cols, line, sub, to_line, to_sub) == row_number(t, cols, to_line, to_sub)
            - row_number(t, cols, line, sub),
    decreases to_line - line,
{
    if line < to_line {
        lemma_rows_of(t, line + 1, cols);
        lemma_rows_from(t, cols, line + 1, 0, to_line, to_sub);
    }
}

/// After scrolling, the row of the cursor lies within the rows in view.
pub proof fn scrolling_shows_cursor(s: Scroll, c: Cursor, body_rows: int, t: Seq<char>, cols: int)
    requires
        0 < body_rows <= usize::MAX,
        0 <= cols,
        row_exists(t, cols, s.top as int, s.top_sub_line as int),
        c.line < text::line_count(t) <= usize::MAX,
        c.col <= columns::col_count(t, c.line as int) <= usize::MAX,
        last_row(t, cols) <= usize::MAX,
        forall|k: int| 0 <= k < text::line_count(t) ==> #[trigger] rows_of(t, k, cols) <= usize::MAX,
    ensures
        ({
            let n = scrolled(s, c, body_rows, t, cols);
            let top = row_number(t, cols, n.top as int, n.top_sub_line as int);
            let row = row_number(t, cols, c.line as int, cursor_sub(t, c, cols));
            &&& row_exists(t, cols, n.top as int, n.top_sub_line as int)
            &&& top <= row < top + body_rows
        }),
{
    let sub = cursor_sub(t, c, cols);
    let line = c.line as int;
    columns::column_in_sub_line(c.col as int, columns::col_count(t, line), cols);
    assert(rows_of(t, line, cols) <= usize::MAX);
    if c.line < s.top || (c.line == s.top && sub < s.top_sub_line) {
    } else {
        lemma_rows_from(t, cols, s.top as int, s.top_sub_line as int, line, sub);
        let rows = rows_from(t, cols, s.top as int, s.top_sub_line as int, line, sub);
        lemma_rows_from_nonneg(t, cols, s.top as int, s.top_sub_line as int, line, sub);
        lemma_rows_above(t, cols, 0, s.top as int);
        lemma_rows_above(t, cols, line, text::line_count(t) as int);
        assert(row_number(t, cols, line, sub) <= last_row(t, cols));
        if rows >= body_rows {
            step_down_is_by_rows(
                t,
                cols,
                s.top as int,
                s.top_sub_line as int,
                rows + 1 - body_rows,
            );
            let (l, k) = step_down(t, cols, s.top as int, s.top_sub_line as int, rows + 1 - body_rows);
            assert(rows_of(t, l, cols) <= usize::MAX);
        }
    }
}

/// The scroll position that puts the cursor's row in the middle.
pub open spec fn centered(s: Scroll, c: Cursor, body_rows: int, t: Seq<char>, cols: int) -> Scroll {
    if body_rows == 0 {
        s
    } else {
        let (l, k) = step_up(t, cols, c.line as int, cursor_sub(t, c, cols), body_rows / 2);
        Scroll { top: l as usize, top_sub_line: k as usize }
    }
}

/// Scrolls so that the cursor's row is in the middle of the body.
pub fn center_on_cursor(
    s: Scroll,
    c: Cursor,
    body_rows: usize,
    rope: &ropey::Rope,
    content_cols: usize,
) -> (r: Scroll)
    ensures
        r == centered(s, c, body_rows as int, text::rope_text(*rope), content_cols as int),
{
    if body_rows == 0 {
        return s;
    }
    let ghost t = text::rope_text(*rope);
    let ghost cols = content_cols as int;
    let mut line: usize = c.line;
    let len: usize = line_grapheme_len(rope, line);
    let (first, _) = col_to_sub_line(c.col, len, content_cols);
    let mut sub: usize = first;
    let mut left: usize = body_rows / 2;
    while left > 0
        invariant
            t == text::rope_text(*rope),
            cols == content_cols,
            body_rows > 0,
            step_up(t, cols, c.line as int, cursor_sub(t, c, cols), body_rows as int / 2)
                == step_up(t, cols, line as int, sub as int, left as int),
        decreases left,
    {
        if sub > 0 {
            sub = sub - 1;
        } else if line > 0 {
            line = line - 1;
            let above: usize = line_grapheme_len(rope, line);
            let n: usize = sub_line_count(above, content_cols);
            sub = n - 1;
        } else {
            return Scroll { top: line, top_sub_line: sub };
        }
        left = left - 1;
    }
    Scroll { top: line, top_sub_line: sub }
}

// ---------------------------------------------------------------------
// Laws
// ---------------------------------------------------------------------

/// Up and down go by one row, page moves by as many as are shown; they land
/// on the column aimed for, or as near to it as the row allows, and go on
/// aiming for it.
pub proof fn vertical_moves_go_by_rows(t: Seq<char>, c: Cursor, m: Move, body_rows: int, cols: int)
    requires
        m is Up || m is Down || m is PageUp || m is PageDown,
        0 <= cols,
        c.line < text::line_count(t) <= usize::MAX,
        c.col <= columns::col_count(t, c.line as int),
        forall|k: int| #![trigger columns::col_count(t, k)]
            0 <= k < text::line_count(t) ==> columns::col_count(t, k) <= usize::MAX,
    ensures
        ({
            let r = moved(t, c, m, body_rows, cols);
            let from = row_number(t, cols, c.line as int, cursor_sub(t, c, cols));
            let to = row_number(t, cols, r.line as int, cursor_sub(t, r, cols));
            let n = if m is Up || m is Down || body_rows < 1 {
                1
            } else {
                body_rows
            };
            let len = columns::col_count(t, r.line as int);
            let start = columns::sub_start(cursor_sub(t, r, cols), len, cols);
            let end = columns::sub_end(cursor_sub(t, r, cols), len, cols);
            &&& r.line < text::line_count(t)
            &&& r.col <= len
            &&& r.preferred_col == c.preferred_col
            &&& m is Up || m is PageUp ==> to == if from >= n {
                from - n
            } else {
                0
            }
            &&& m is Down || m is PageDown ==> to == if from + n <= last_row(t, cols) {
                from + n
            } else {
                last_row(t, cols)
            }
            &&& start <= r.col <= end
            &&& r.col - start <= c.preferred_col
            &&& r.col - start < c.preferred_col ==> r.col == end || (r.col == end - 1 && cursor_sub(
                t,
                r,
                cols,
            ) + 1 < rows_of(t, r.line as int, cols))
        }),
{
    let line = c.line as int;
    let sub = cursor_sub(t, c, cols);
    columns::column_in_sub_line(c.col as int, columns::col_count(t, line), cols);
    let n = if m is Up || m is Down {
        1
    } else {
        page(body_rows)
    };
    let (l, s) = if m is Up || m is PageUp {
        step_up(t, cols, line, sub, n)
    } else {
        step_down(t, cols, line, sub, n)
    };
    if m is Up || m is PageUp {
        step_up_is_by_rows(t, cols, line, sub, n);
    } else {
        step_down_is_by_rows(t, cols, line, sub, n);
    }
    assert(columns::col_count(t, l) <= usize::MAX);
    landing_stays_on_row(t, cols, l, s, c.preferred_col);
    columns::lemma_sub_range(s, columns::col_count(t, l), cols);
}

/// Left and right go by one column, over line ends, and stop at the ends of
/// the text; what the one does the other takes back.
pub proof fn left_and_right_go_by_one(t: Seq<char>, c: Cursor, body_rows: int, cols: int)
    requires
        c.line < text::line_count(t) <= usize::MAX,
        c.col <= columns::col_count(t, c.line as int),
        forall|k: int| #![trigger columns::col_count(t, k)]
            0 <= k < text::line_count(t) ==> columns::col_count(t, k) <= usize::MAX,
    ensures
        ({
            let l = moved(t, c, Move::Left, body_rows, cols);
            let r = moved(t, c, Move::Right, body_rows, cols);
            let n = columns::col_count(t, c.line as int);
            let last = text::line_count(t) - 1;
            &&& c.col > 0 ==> l.line == c.line && l.col == c.col - 1
            &&& c.col == 0 && c.line > 0 ==> l.line == c.line - 1 && l.col == columns::col_count(
                t,
                c.line - 1,
            )
            &&& c.col == 0 && c.line == 0 ==> l.line == 0 && l.col == 0
            &&& c.col < n ==> r.line == c.line && r.col == c.col + 1
            &&& c.col == n && c.line < last ==> r.line == c.line + 1 && r.col == 0
            &&& c.col == n && c.line == last ==> r.line == c.line && r.col == n
            &&& c.col < n || c.line < last ==> ({
                let back = moved(t, r, Move::Left, body_rows, cols);
                back.line == c.line && back.col == c.col
            })
        }),
{
    if c.line > 0 {
        assert(columns::col_count(t, c.line - 1) <= usize::MAX);
    }
    assert(columns::col_count(t, c.line as int) <= usize::MAX);
}

/// The moves to an end go to the ends of the line and of the text.
pub proof fn moves_to_an_end_reach_it(t: Seq<char>, c: Cursor, body_rows: int, cols: int)
    requires
        c.line < text::line_count(t) <= usize::MAX,
        columns::col_count(t, c.line as int) <= usize::MAX,
        columns::col_count(t, text::line_count(t) - 1) <= usize::MAX,
    ensures
        ({
            let last = text::line_count(t) - 1;
            let a = moved(t, c, Move::LineStart, body_rows, cols);
            let b = moved(t, c, Move::LineEnd, body_rows, cols);
            let x = moved(t, c, Move::FileStart, body_rows, cols);
            let y = moved(t, c, Move::FileEnd, body_rows, cols);
            &&& a.line == c.line && a.col == 0
            &&& b.line == c.line && b.col == columns::col_count(t, c.line as int)
            &&& x.line == 0 && x.col == 0
            &&& y.line == last && y.col == columns::col_count(t, last)
        }),
{
}

/// The moves that are not vertical aim for where they land within its row.
pub proof fn other_moves_aim_for_where_they_land(
    t: Seq<char>,
    c: Cursor,
    m: Move,
    body_rows: int,
    cols: int,
)
    requires
        !(m is Up || m is Down || m is PageUp || m is PageDown),
        columns::col_count(t, c.line as int) <= usize::MAX,
        moved(t, c, m, body_rows, cols).col <= columns::col_count(
            t,
            moved(t, c, m, body_rows, cols).line as int,
        ) <= usize::MAX,
        c.line < text::line_count(t) <= usize::MAX,
        c.col <= columns::col_count(t, c.line as int),
        forall|k: int| #![trigger columns::col_count(t, k)]
            0 <= k < text::line_count(t) ==> columns::col_count(t, k) <= usize::MAX,
    ensures
        ({
            let r = moved(t, c, m, body_rows, cols);
            let len = columns::col_count(t, r.line as int);
            r.preferred_col == r.col - columns::sub_start(
                columns::sub_of(r.col as int, len, cols),
                len,
                cols,
            )
        }),
{
    let r = moved(t, c, m, body_rows, cols);
    let len = columns::col_count(t, r.line as int);
    columns::column_in_sub_line(r.col as int, len, cols);
    if m is WordLeft {
        word_left_goes_to_the_start_of_a_word(t, c, body_rows, cols);
    } else if m is WordRight {
        word_right_goes_behind_a_word(t, c, body_rows, cols);
    } else if c.line > 0 {
        assert(columns::col_count(t, c.line - 1) <= usize::MAX);
    }
    assert(columns::col_count(t, last_line(t)) <= usize::MAX);
}

proof fn lemma_word_from(g: Seq<Seq<char>>, col: int)
    requires
        0 <= col <= g.len(),
    ensures
        col <= word_from(g, col) <= g.len(),
        forall|k: int| col <= k < word_from(g, col) ==> !columns::word_col(g, k),
        word_from(g, col) < g.len() ==> columns::word_col(g, word_from(g, col)),
    decreases g.len() - col,
{
    if col < g.len() && !columns::word_col(g, col) {
        lemma_word_from(g, col + 1);
    }
}

proof fn lemma_word_end(g: Seq<Seq<char>>, col: int)
    requires
        0 <= col <= g.len(),
    ensures
        col <= word_end(g, col) <= g.len(),
        forall|k: int| col <= k < word_end(g, col) ==> columns::word_col(g, k),
        word_end(g, col) < g.len() ==> !columns::word_col(g, word_end(g, col)),
    decreases g.len() - col,
{
    if col < g.len() && columns::word_col(g, col) {
        lemma_word_end(g, col + 1);
    }
}

proof fn lemma_word_before(g: Seq<Seq<char>>, col: int)
    requires
        0 <= col <= g.len(),
    ensures
        0 <= word_before(g, col) <= col,
        forall|k: int| word_before(g, col) <= k < col ==> !columns::word_col(g, k),
        word_before(g, col) > 0 ==> columns::word_col(g, word_before(g, col) - 1),
    decreases col,
{
    if col > 0 && !columns::word_col(g, col - 1) {
        lemma_word_before(g, col - 1);
    }
}

proof fn lemma_word_start(g: Seq<Seq<char>>, col: int)
    requires
        0 <= col <= g.len(),
    ensures
        0 <= word_start(g, col) <= col,
        forall|k: int| word_start(g, col) <= k < col ==> columns::word_col(g, k),
        word_start(g, col) > 0 ==> !columns::word_col(g, word_start(g, col) - 1),
    decreases col,
{
    if col > 0 && columns::word_col(g, col - 1) {
        lemma_word_start(g, col - 1);
    }
}

/// A cluster that begins with a letter, a digit or an underscore.
pub open spec fn wordy(t: Seq<char>, line: int, col: int) -> bool {
    let g = columns::line_cols(t, line);
    0 <= col < g.len() && g[col].len() > 0 && (chars::alphanumeric(g[col][0]) || g[col][0] == '_')
}

/// There is no part of a word on a line from one column up to another.
pub open spec fn wordless(t: Seq<char>, line: int, a: int, b: int) -> bool {
    forall|k: int| a <= k < b ==> !#[trigger] wordy(t, line, k)
}

proof fn lemma_next_word(t: Seq<char>, line: int, col: int)
    requires
        0 <= line < text::line_count(t),
        0 <= col <= columns::col_count(t, line),
    ensures
        ({
            let (l, k) = next_word(t, line, col);
            behind_a_word(t, line, col, l, k)
        }),
    decreases text::line_count(t) - line,
{
    let g = columns::line_cols(t, line);
    lemma_word_from(g, col);
    let w = word_from(g, col);
    assert forall|k: int| col <= k < w implies !#[trigger] wordy(t, line, k) by {
        assert(!columns::word_col(g, k));
    }
    if w < g.len() {
        lemma_word_end(g, w);
        let z = word_end(g, w);
        assert(columns::word_col(g, w));
        assert forall|k: int| w <= k < z implies #[trigger] wordy(t, line, k) by {
            assert(columns::word_col(g, k));
        }
        assert(z > w);
        assert(wordless(t, line, col, w));
        assert(word_between(t, line, w, z));
    } else if line + 1 < text::line_count(t) {
        lemma_next_word(t, line + 1, 0);
        let (l, k) = next_word(t, line + 1, 0);
        if exists|w2: int| word_between(t, l, w2, k) && ahead(t, line + 1, 0, l, w2) {
            let w2 = choose|w2: int| word_between(t, l, w2, k) && ahead(t, line + 1, 0, l, w2);
            assert forall|x: int| line < x < l implies #[trigger] wordless(
                t,
                x,
                0,
                columns::col_count(t, x),
            ) by {
                if x == line + 1 && l > line + 1 {
                    assert(wordless(t, line + 1, 0, columns::col_count(t, line + 1)));
                }
            }
            assert(ahead(t, line, col, l, w2));
        } else {
            assert forall|x: int| line < x < text::line_count(t) implies #[trigger] wordless(
                t,
                x,
                0,
                columns::col_count(t, x),
            ) by {
                if x == line + 1 {
                    assert(wordless(t, line + 1, 0, columns::col_count(t, line + 1)));
                }
            }
        }
    }
}

/// A whole run of word clusters lies from `w` up to `z`.
pub open spec fn word_between(t: Seq<char>, line: int, w: int, z: int) -> bool {
    &&& 0 <= w < z <= columns::col_count(t, line)
    &&& forall|k: int| w <= k < z ==> #[trigger] wordy(t, line, k)
    &&& !wordy(t, line, z)
}

/// No part of a word lies between a place and another one ahead of it.
pub open spec fn ahead(t: Seq<char>, line: int, col: int, l: int, w: int) -> bool {
    &&& line <= l < text::line_count(t)
    &&& l == line ==> col <= w && wordless(t, line, col, w)
    &&& l > line ==> wordless(t, line, col, columns::col_count(t, line)) && wordless(t, l, 0, w)
    &&& forall|x: int| line < x < l ==> #[trigger] wordless(t, x, 0, columns::col_count(t, x))
}

/// A place is right behind the first word ahead of another place, or at the
/// end of a text that has none there.
pub open spec fn behind_a_word(t: Seq<char>, line: int, col: int, l: int, k: int) -> bool {
    ||| exists|w: int| word_between(t, l, w, k) && ahead(t, line, col, l, w)
    ||| {
        &&& l == text::line_count(t) - 1
        &&& k == columns::col_count(t, l)
        &&& wordless(t, line, col, columns::col_count(t, line))
        &&& forall|x: int|
            line < x < text::line_count(t) ==> #[trigger] wordless(
                t,
                x,
                0,
                columns::col_count(t, x),
            )
    }
}

/// Going right by words leads right behind the next word, be it on this
/// line or on a later one, and else to the end of the text.
pub proof fn word_right_goes_behind_a_word(t: Seq<char>, c: Cursor, body_rows: int, cols: int)
    requires
        c.line < text::line_count(t) <= usize::MAX,
        c.col <= columns::col_count(t, c.line as int),
        forall|k: int| #![trigger columns::col_count(t, k)]
            0 <= k < text::line_count(t) ==> columns::col_count(t, k) <= usize::MAX,
    ensures
        ({
            let r = moved(t, c, Move::WordRight, body_rows, cols);
            &&& r.line < text::line_count(t)
            &&& r.col <= columns::col_count(t, r.line as int)
            &&& next_word(t, c.line as int, c.col as int) == (r.line as int, r.col as int)
            &&& behind_a_word(t, c.line as int, c.col as int, r.line as int, r.col as int)
        }),
{
    lemma_next_word(t, c.line as int, c.col as int);
    let (l, k) = next_word(t, c.line as int, c.col as int);
    assert(columns::col_count(t, l) <= usize::MAX);
}

/// A place is the start of the first word back from another place, or the
/// start of a text that has none there.
pub open spec fn before_a_word(t: Seq<char>, line: int, col: int, l: int, k: int) -> bool {
    ||| exists|z: int| word_from_to(t, l, k, z) && back(t, line, col, l, z)
    ||| {
        &&& l == 0
        &&& k == 0
        &&& wordless(t, line, 0, col)
        &&& forall|x: int| 0 <= x < line ==> #[trigger] wordless(t, x, 0, columns::col_count(t, x))
    }
}

/// A run of word clusters from `w` up to `z` that does not start earlier.
pub open spec fn word_from_to(t: Seq<char>, line: int, w: int, z: int) -> bool {
    &&& 0 <= w < z <= columns::col_count(t, line)
    &&& forall|k: int| w <= k < z ==> #[trigger] wordy(t, line, k)
    &&& !wordy(t, line, w - 1)
}

/// No part of a word lies between a place and another one before it.
pub open spec fn back(t: Seq<char>, line: int, col: int, l: int, z: int) -> bool {
    &&& 0 <= l <= line
    &&& l == line ==> z <= col && wordless(t, line, z, col)
    &&& l < line ==> wordless(t, line, 0, col) && wordless(t, l, z, columns::col_count(t, l))
    &&& forall|x: int| l < x < line ==> #[trigger] wordless(t, x, 0, columns::col_count(t, x))
}

proof fn lemma_prev_word(t: Seq<char>, line: int, col: int)
    requires
        0 <= line < text::line_count(t),
        0 <= col <= columns::col_count(t, line),
    ensures
        ({
            let (l, k) = prev_word(t, line, col);
            &&& before_a_word(t, line, col, l, k)
            &&& 0 <= l <= line
            &&& 0 <= k <= columns::col_count(t, l)
        }),
    decreases line,
{
    let g = columns::line_cols(t, line);
    lemma_word_before(g, col);
    let z = word_before(g, col);
    assert forall|k: int| z <= k < col implies !#[trigger] wordy(t, line, k) by {
        assert(!columns::word_col(g, k));
    }
    assert(wordless(t, line, z, col));
    if z > 0 {
        lemma_word_start(g, z);
        let w = word_start(g, z);
        assert forall|k: int| w <= k < z implies #[trigger] wordy(t, line, k) by {
            assert(columns::word_col(g, k));
        }
        assert(columns::word_col(g, z - 1));
        assert(w < z);
        assert(word_from_to(t, line, w, z));
        assert(back(t, line, col, line, z));
    } else if line > 0 {
        let n = columns::col_count(t, line - 1);
        lemma_prev_word(t, line - 1, n);
        let (l, k) = prev_word(t, line - 1, n);
        if exists|z2: int| word_from_to(t, l, k, z2) && back(t, line - 1, n, l, z2) {
            let z2 = choose|z2: int| word_from_to(t, l, k, z2) && back(t, line - 1, n, l, z2);
            assert(back(t, line, col, l, z2));
        }
    }
}

/// Going left by words leads to the start of the word before, be it on this
/// line or on an earlier one, and else to the start of the text.
pub proof fn word_left_goes_to_the_start_of_a_word(t: Seq<char>, c: Cursor, body_rows: int, cols: int)
    requires
        c.line < text::line_count(t) <= usize::MAX,
        c.col <= columns::col_count(t, c.line as int),
        forall|k: int| #![trigger columns::col_count(t, k)]
            0 <= k < text::line_count(t) ==> columns::col_count(t, k) <= usize::MAX,
    ensures
        ({
            let r = moved(t, c, Move::WordLeft, body_rows, cols);
            &&& r.line < text::line_count(t)
            &&& r.col <= columns::col_count(t, r.line as int)
            &&& prev_word(t, c.line as int, c.col as int) == (r.line as int, r.col as int)
            &&& before_a_word(t, c.line as int, c.col as int, r.line as int, r.col as int)
        }),
{
    lemma_prev_word(t, c.line as int, c.col as int);
    let (l, k) = prev_word(t, c.line as int, c.col as int);
    assert(columns::col_count(t, l) <= usize::MAX);
}

/// While the row of the cursor is in view the view stays; else it moves no
/// further than it must.
pub proof fn scrolling_moves_no_further_than_needed(
    s: Scroll,
    c: Cursor,
    body_rows: int,
    t: Seq<char>,
    cols: int,
)
    requires
        0 < body_rows <= usize::MAX,
        0 <= cols,
        row_exists(t, cols, s.top as int, s.top_sub_line as int),
        c.line < text::line_count(t) <= usize::MAX,
        c.col <= columns::col_count(t, c.line as int) <= usize::MAX,
        last_row(t, cols) <= usize::MAX,
        forall|k: int| 0 <= k < text::line_count(t) ==> #[trigger] rows_of(t, k, cols) <= usize::MAX,
    ensures
        ({
            let n = scrolled(s, c, body_rows, t, cols);
            let old_top = row_number(t, cols, s.top as int, s.top_sub_line as int);
            let top = row_number(t, cols, n.top as int, n.top_sub_line as int);
            let row = row_number(t, cols, c.line as int, cursor_sub(t, c, cols));
            &&& old_top <= row < old_top + body_rows ==> n == s
            &&& row < old_top ==> top == row
            &&& row >= old_top + body_rows ==> top == row + 1 - body_rows
        }),
{
    let sub = cursor_sub(t, c, cols);
    let line = c.line as int;
    columns::column_in_sub_line(c.col as int, columns::col_count(t, line), cols);
    assert(rows_of(t, line, cols) <= usize::MAX);
    if c.line < s.top {
        lemma_rows_above(t, cols, line, s.top as int);
    }
    if s.top < c.line {
        lemma_rows_above(t, cols, s.top as int, line);
    }
    if !(c.line < s.top || (c.line == s.top && sub < s.top_sub_line)) {
        lemma_rows_from(t, cols, s.top as int, s.top_sub_line as int, line, sub);
        let rows = rows_from(t, cols, s.top as int, s.top_sub_line as int, line, sub);
        lemma_rows_above(t, cols, 0, s.top as int);
        lemma_rows_above(t, cols, line, text::line_count(t) as int);
        if rows >= body_rows {
            step_down_is_by_rows(
                t,
                cols,
                s.top as int,
                s.top_sub_line as int,
                rows + 1 - body_rows,
            );
            let (l, k) = step_down(t, cols, s.top as int, s.top_sub_line as int, rows + 1 - body_rows);
            assert(rows_of(t, l, cols) <= usize::MAX);
        }
    }
}

/// Centring puts half of the rows in view above the cursor, or all that
/// there are.
pub proof fn centring_puts_half_the_rows_above(
    s: Scroll,
    c: Cursor,
    body_rows: int,
    t: Seq<char>,
    cols: int,
)
    requires
        0 < body_rows,
        0 <= cols,
        c.line < text::line_count(t) <= usize::MAX,
        c.col <= columns::col_count(t, c.line as int),
        forall|k: int| 0 <= k < text::line_count(t) ==> #[trigger] rows_of(t, k, cols) <= usize::MAX,
    ensures
        ({
            let n = centered(s, c, body_rows, t, cols);
            let top = row_number(t, cols, n.top as int, n.top_sub_line as int);
            let row = row_number(t, cols, c.line as int, cursor_sub(t, c, cols));
            top == if row >= body_rows / 2 {
                row - body_rows / 2
            } else {
                0
            }
        }),
{
    let sub = cursor_sub(t, c, cols);
    let line = c.line as int;
    columns::column_in_sub_line(c.col as int, columns::col_count(t, line), cols);
    step_up_is_by_rows(t, cols, line, sub, body_rows / 2);
    let (l, k) = step_up(t, cols, line, sub, body_rows / 2);
    assert(rows_of(t, l, cols) <= usize::MAX);
}

} // verus!
