//! Cursor columns. A column is a grapheme cluster of a line; a long line is
//! shown on several rows, its sub-lines.

use vstd::prelude::*;

use crate::chars;
use crate::text;
use crate::text::{
    line_char_len, line_text, rope_char_to_line, rope_len, rope_len_lines, rope_line_to_char,
};

verus! {

/// A cursor: a line, a column on it, and the column that vertical moves
/// aim for.
#[derive(Clone, Copy, Debug, PartialEq, Eq, Structural)]
pub struct Cursor {
    pub line: usize,
    pub col: usize,
    pub preferred_col: usize,
}

impl Cursor {
    pub fn origin() -> (c: Cursor)
        ensures
            c == (Cursor { line: 0, col: 0, preferred_col: 0 }),
    {
        Cursor { line: 0, col: 0, preferred_col: 0 }
    }
}

/// The row of the buffer at the top of the viewport.
#[derive(Clone, Copy, Debug, PartialEq, Eq, Structural)]
pub struct Scroll {
    pub top: usize,
    pub top_sub_line: usize,
}

impl Scroll {
    pub fn origin() -> (s: Scroll)
        ensures
            s == (Scroll { top: 0, top_sub_line: 0 }),
    {
        Scroll { top: 0, top_sub_line: 0 }
    }
}

// ---------------------------------------------------------------------
// Grapheme clusters
// ---------------------------------------------------------------------

/// The extended grapheme clusters of a string, in order.
pub uninterp spec fn graphemes_of(s: Seq<char>) -> Seq<Seq<char>>;

/// The number of characters in the first `n` clusters.
pub open spec fn cluster_chars(g: Seq<Seq<char>>, n: int) -> int
    decreases n,
{
    if n <= 0 || n > g.len() {
        0
    } else {
        cluster_chars(g, n - 1) + g[n - 1].len()
    }
}

/// The first `n` clusters, joined.
pub open spec fn joined(g: Seq<Seq<char>>, n: int) -> Seq<char>
    decreases n,
{
    if n <= 0 || n > g.len() {
        seq![]
    } else {
        joined(g, n - 1) + g[n - 1]
    }
}

/// A split of `len` characters into non-empty clusters.
pub open spec fn splits(g: Seq<Seq<char>>, len: int) -> bool {
    &&& cluster_chars(g, g.len() as int) == len
    &&& forall|i: int| 0 <= i < g.len() ==> (#[trigger] g[i]).len() > 0
}

/// Where column `col` starts; past the last column, where the line ends.
pub open spec fn col_offset(g: Seq<Seq<char>>, col: int) -> int {
    if col >= g.len() {
        cluster_chars(g, g.len() as int)
    } else {
        cluster_chars(g, col)
    }
}

/// How many of the clusters from `j` on end at or before `off`, plus `j`.
pub open spec fn cols_ended(g: Seq<Seq<char>>, off: int, j: int) -> int
    decreases g.len() - j,
{
    if 0 <= j < g.len() && cluster_chars(g, j + 1) <= off {
        cols_ended(g, off, j + 1)
    } else {
        j
    }
}

/// The column that the character at `off` belongs to.
pub open spec fn offset_col(g: Seq<Seq<char>>, off: int) -> int {
    cols_ended(g, off, 0)
}

/// The clusters of line `k`; none for a line that does not exist.
pub open spec fn line_cols(t: Seq<char>, k: int) -> Seq<Seq<char>> {
    if 0 <= k < text::line_count(t) {
        graphemes_of(text::line_content(t, k))
    } else {
        seq![]
    }
}

/// The number of columns of line `k`.
pub open spec fn col_count(t: Seq<char>, k: int) -> int {
    line_cols(t, k).len() as int
}

/// The line a cursor stands on, pulled into the text.
pub open spec fn clamped_line(t: Seq<char>, line: int) -> int {
    if line < text::line_count(t) {
        line
    } else {
        text::line_count(t) - 1
    }
}

/// The position of a cursor, pulled into the text.
pub open spec fn cursor_index(t: Seq<char>, c: Cursor) -> int {
    let line = clamped_line(t, c.line as int);
    text::line_start(t, line) + col_offset(line_cols(t, line), c.col as int)
}

/// The cursor at a position.
pub open spec fn index_cursor(t: Seq<char>, i: int) -> Cursor {
    let line = text::line_of(t, i) as int;
    let col = offset_col(line_cols(t, line), i - text::line_start(t, line));
    Cursor { line: line as usize, col: col as usize, preferred_col: col as usize }
}

pub proof fn lemma_cluster_chars(g: Seq<Seq<char>>, a: int, b: int)
    requires
        0 <= a <= b <= g.len(),
    ensures
        0 <= cluster_chars(g, a) <= cluster_chars(g, b),
        (forall|i: int| a <= i < b ==> (#[trigger] g[i]).len() > 0) ==> cluster_chars(g, b)
            - cluster_chars(g, a) >= b - a,
    decreases b,
{
    if a < b {
        lemma_cluster_chars(g, a, b - 1);
    } else if a > 0 {
        lemma_cluster_chars(g, a - 1, a - 1);
    }
}

pub proof fn lemma_cols_ended(g: Seq<Seq<char>>, off: int, j: int)
    requires
        0 <= j <= g.len(),
    ensures
        j <= cols_ended(g, off, j) <= g.len(),
        j < cols_ended(g, off, j) ==> cluster_chars(g, cols_ended(g, off, j)) <= off,
        cols_ended(g, off, j) < g.len() ==> cluster_chars(g, cols_ended(g, off, j) + 1) > off,
    decreases g.len() - j,
{
    if j < g.len() && cluster_chars(g, j + 1) <= off {
        lemma_cols_ended(g, off, j + 1);
    }
}

/// The start of a column belongs to that column: going to a column's
/// offset and back gives the column again, as long as it exists.
pub proof fn column_round_trip(g: Seq<Seq<char>>, len: int, col: int)
    requires
        splits(g, len),
        0 <= col <= g.len(),
    ensures
        offset_col(g, col_offset(g, col)) == col,
        0 <= col_offset(g, col) <= len,
{
    let off = col_offset(g, col);
    assert(off == cluster_chars(g, col));
    lemma_cluster_chars(g, 0, col);
    lemma_cluster_chars(g, col, g.len() as int);
    lemma_cols_ended(g, off, 0);
    let r = offset_col(g, off);
    if r < col {
        lemma_cluster_chars(g, r + 1, col);
    } else if r > col {
        lemma_cluster_chars(g, col, r);
    }
}

proof fn lemma_joined(g: Seq<Seq<char>>, n: int)
    requires
        0 <= n <= g.len(),
    ensures
        joined(g, n).len() == cluster_chars(g, n),
    decreases n,
{
    if n > 0 {
        lemma_joined(g, n - 1);
    }
}

/// `UnicodeSegmentation::graphemes` with extended clusters, as owned
/// strings: the clusters joined give the string back, and none is empty.
#[verifier::external_body]
fn grapheme_strings(s: &str) -> (v: Vec<String>)
    ensures
        v@.map_values(|x: String| x@) == graphemes_of(s@),
        joined(v@.map_values(|x: String| x@), v.len() as int) == s@,
        forall|i: int| 0 <= i < v.len() ==> (#[trigger] v[i])@.len() > 0,
{
    unicode_segmentation::UnicodeSegmentation::graphemes(s, true).map(String::from).collect()
}

/// The clusters of a string.
pub fn clusters(s: &str) -> (v: Vec<String>)
    ensures
        v@.map_values(|x: String| x@) == graphemes_of(s@),
        joined(graphemes_of(s@), graphemes_of(s@).len() as int) == s@,
        splits(graphemes_of(s@), s@.len() as int),
        v.len() == graphemes_of(s@).len(),
        forall|i: int| 0 <= i < v.len() ==> (#[trigger] v[i])@ == graphemes_of(s@)[i],
{
    let v = grapheme_strings(s);
    let ghost g = v@.map_values(|x: String| x@);
    assert(g.len() == v.len());
    assert forall|i: int| 0 <= i < v.len() implies (#[trigger] v[i])@ == graphemes_of(s@)[i] by {
        assert(g[i] == v[i]@);
    }
    proof {
        lemma_joined(g, g.len() as int);
        assert forall|i: int| 0 <= i < g.len() implies (#[trigger] g[i]).len() > 0 by {
            assert(v[i]@.len() > 0);
        }
    }
    v
}

/// The clusters of a buffer line.
pub fn line_clusters(rope: &ropey::Rope, line: usize) -> (v: Vec<String>)
    ensures
        v.len() == line_cols(text::rope_text(*rope), line as int).len(),
        forall|i: int|
            0 <= i < v.len() ==> (#[trigger] v[i])@ == line_cols(text::rope_text(*rope), line as int)[i],
        splits(
            line_cols(text::rope_text(*rope), line as int),
            text::line_len(text::rope_text(*rope), line as int),
        ),
{
    let ghost t = text::rope_text(*rope);
    if line >= rope_len_lines(rope) {
        return Vec::new();
    }
    proof {
        text::lemma_line_len(t, line as int);
    }
    let s = line_text(rope, line);
    clusters(s.as_str())
}

/// Grapheme-cluster count of a buffer line without its trailing `\n` or
/// `\r\n`.
pub fn line_grapheme_len(rope: &ropey::Rope, line: usize) -> (n: usize)
    ensures
        n == col_count(text::rope_text(*rope), line as int),
        splits(
            line_cols(text::rope_text(*rope), line as int),
            text::line_len(text::rope_text(*rope), line as int),
        ),
{
    line_clusters(rope, line).len()
}

/// The offset on the line of column `col`.
pub fn grapheme_col_to_char(rope: &ropey::Rope, line: usize, col: usize) -> (off: usize)
    ensures
        off == col_offset(line_cols(text::rope_text(*rope), line as int), col as int),
        off <= text::line_len(text::rope_text(*rope), line as int),
        splits(
            line_cols(text::rope_text(*rope), line as int),
            text::line_len(text::rope_text(*rope), line as int),
        ),
{
    let ghost t = text::rope_text(*rope);
    let ghost g = line_cols(t, line as int);
    let v = line_clusters(rope, line);
    let limit: usize = line_char_len(rope, line);
    let mut n: usize = 0;
    let mut off: usize = 0;
    while n < v.len() && n < col
        invariant
            n <= v.len(),
            n <= col,
            v.len() == g.len(),
            forall|i: int| 0 <= i < v.len() ==> (#[trigger] v[i])@ == g[i],
            splits(g, limit as int),
            off == cluster_chars(g, n as int),
            off <= limit,
        decreases v.len() - n,
    {
        proof {
            lemma_cluster_chars(g, n as int + 1, g.len() as int);
            assert(v[n as int]@ == g[n as int]);
        }
        off = off + v[n].as_str().unicode_len();
        n = n + 1;
    }
    off
}

/// The column on the line that the character at offset `off` belongs to.
pub fn char_to_grapheme_col(rope: &ropey::Rope, line: usize, off: usize) -> (col: usize)
    ensures
        col == offset_col(line_cols(text::rope_text(*rope), line as int), off as int),
{
    let ghost t = text::rope_text(*rope);
    let ghost g = line_cols(t, line as int);
    let v = line_clusters(rope, line);
    let limit: usize = line_char_len(rope, line);
    let mut n: usize = 0;
    let mut end: usize = 0;
    while n < v.len()
        invariant
            n <= v.len(),
            g == line_cols(text::rope_text(*rope), line as int),
            v.len() == g.len(),
            forall|i: int| 0 <= i < v.len() ==> (#[trigger] v[i])@ == g[i],
            splits(g, limit as int),
            end == cluster_chars(g, n as int),
            end <= limit,
            cols_ended(g, off as int, 0) == cols_ended(g, off as int, n as int),
        decreases v.len() - n,
    {
        proof {
            lemma_cluster_chars(g, n as int + 1, g.len() as int);
            assert(v[n as int]@ == g[n as int]);
        }
        let next: usize = end + v[n].as_str().unicode_len();
        assert(next == cluster_chars(g, n as int + 1));
        if next > off {
            return n;
        }
        end = next;
        n = n + 1;
    }
    n
}

/// A cursor as a character position, with lines and columns out of range
/// pulled in.
pub fn cursor_to_char(c: &Cursor, rope: &ropey::Rope) -> (i: usize)
    ensures
        i == cursor_index(text::rope_text(*rope), *c),
        i <= text::rope_text(*rope).len(),
        i <= text::line_end(text::rope_text(*rope), clamped_line(text::rope_text(*rope), c.line as int)),
{
    let ghost t = text::rope_text(*rope);
    let count: usize = rope_len_lines(rope);
    let line: usize = if c.line < count { c.line } else { count - 1 };
    proof {
        text::lemma_line_len(t, line as int);
    }
    let base: usize = rope_line_to_char(rope, line);
    let total: usize = rope_len(rope);
    let off: usize = grapheme_col_to_char(rope, line, c.col);
    base + off
}

/// A character position as a cursor that aims for its own column.
pub fn char_to_cursor(i: usize, rope: &ropey::Rope) -> (c: Cursor)
    requires
        i <= text::rope_text(*rope).len(),
    ensures
        c == index_cursor(text::rope_text(*rope), i as int),
        c.line == text::line_of(text::rope_text(*rope), i as int),
        c.line < text::line_count(text::rope_text(*rope)),
        c.col <= col_count(text::rope_text(*rope), c.line as int),
{
    let ghost t = text::rope_text(*rope);
    proof {
        text::lemma_line_of(t, i as int);
    }
    let line: usize = rope_char_to_line(rope, i);
    let base: usize = rope_line_to_char(rope, line);
    let col: usize = char_to_grapheme_col(rope, line, i - base);
    proof {
        lemma_cols_ended(line_cols(t, line as int), i - base, 0);
    }
    Cursor { line, col, preferred_col: col }
}

// ---------------------------------------------------------------------
// Sub-lines
// ---------------------------------------------------------------------

/// Whether a line of `len` columns is too long for one row.
pub open spec fn wraps(len: int, cols: int) -> bool {
    cols >= 2 && len > cols
}

/// How many rows a line of `len` columns takes in a body `cols` wide. All
/// rows but the last give their final cell to the wrap mark. Rows are filled
/// column by column, whatever the width of a cluster.
pub open spec fn sub_count(len: int, cols: int) -> int {
    if wraps(len, cols) {
        1 + (len - 1) / (cols - 1)
    } else {
        1
    }
}

/// The sub-line that a column lies on. The column at a wrap boundary
/// belongs to the row it opens.
pub open spec fn sub_of(col: int, len: int, cols: int) -> int {
    if !wraps(len, cols) {
        0
    } else if col / (cols - 1) < sub_count(len, cols) {
        col / (cols - 1)
    } else {
        sub_count(len, cols) - 1
    }
}

/// The first column of a sub-line.
pub open spec fn sub_start(sub: int, len: int, cols: int) -> int {
    if wraps(len, cols) {
        sub * (cols - 1)
    } else {
        0
    }
}

/// The column after the last one of a sub-line.
pub open spec fn sub_end(sub: int, len: int, cols: int) -> int {
    if sub + 1 < sub_count(len, cols) {
        (sub + 1) * (cols - 1)
    } else {
        len
    }
}

/// The distance of a column from the start of its sub-line.
pub open spec fn within_sub(col: int, len: int, cols: int) -> int {
    col - sub_start(sub_of(col, len, cols), len, cols)
}

/// The rows of a wrapped line fit: every row but the last holds
/// `cols - 1` columns, the last holds at least one and at most as many.
pub proof fn sub_lines_fit(len: int, cols: int)
    requires
        wraps(len, cols),
    ensures
        sub_count(len, cols) >= 2,
        (sub_count(len, cols) - 1) * (cols - 1) < len,
        len <= sub_count(len, cols) * (cols - 1),
{
    let w = cols - 1;
    let q = (len - 1) / w;
    assert(q * w <= len - 1 < (q + 1) * w && q >= 1) by (nonlinear_arith)
        requires
            w >= 1,
            len - 1 >= w,
            q == (len - 1) / w,
    ;
}

/// A column of a line lies between the start and the end of its sub-line.
pub proof fn column_in_sub_line(col: int, len: int, cols: int)
    requires
        0 <= col <= len,
    ensures
        0 <= sub_of(col, len, cols) < sub_count(len, cols),
        0 <= sub_start(sub_of(col, len, cols), len, cols) <= col <= sub_end(
            sub_of(col, len, cols),
            len,
            cols,
        ),
        sub_of(col, len, cols) + 1 < sub_count(len, cols) ==> col < sub_end(
            sub_of(col, len, cols),
            len,
            cols,
        ),
{
    if wraps(len, cols) {
        sub_lines_fit(len, cols);
        let w = cols - 1;
        let q = col / w;
        assert(0 <= q && q * w <= col < (q + 1) * w) by (nonlinear_arith)
            requires
                w >= 1,
                col >= 0,
                q == col / w,
        ;
        let n = sub_count(len, cols);
        if q >= n {
            assert((n - 1) * w <= q * w) by (nonlinear_arith)
                requires
                    w >= 1,
                    n - 1 <= q,
            ;
        }
        assert(0 <= (n - 1) * w) by (nonlinear_arith)
            requires
                w >= 1,
                n >= 1,
        ;
        assert(0 <= q * w) by (nonlinear_arith)
            requires
                w >= 1,
                q >= 0,
        ;
    }
}

pub proof fn lemma_sub_range(sub: int, len: int, cols: int)
    requires
        0 <= len,
        0 <= sub < sub_count(len, cols),
    ensures
        0 <= sub_start(sub, len, cols) <= sub_end(sub, len, cols) <= len,
        wraps(len, cols) ==> sub_start(sub, len, cols) < sub_end(sub, len, cols),
{
    if wraps(len, cols) {
        sub_lines_fit(len, cols);
        let w = cols - 1;
        let n = sub_count(len, cols);
        assert(0 <= sub * w && sub * w <= (n - 1) * w) by (nonlinear_arith)
            requires
                w >= 1,
                0 <= sub <= n - 1,
        ;
        if sub + 1 < n {
            assert((sub + 1) * w <= (n - 1) * w) by (nonlinear_arith)
                requires
                    w >= 1,
                    sub + 1 <= n - 1,
            ;
            assert((sub + 1) * w == sub * w + w) by (nonlinear_arith);
        }
    }
}

/// The number of rows that a line of `len` columns takes.
pub fn sub_line_count(len: usize, content_cols: usize) -> (n: usize)
    ensures
        n == sub_count(len as int, content_cols as int),
        n >= 1,
{
    if content_cols < 2 || len <= content_cols {
        return 1;
    }
    let w: usize = content_cols - 1;
    proof {
        sub_lines_fit(len as int, content_cols as int);
        assert((len - 1) / (w as int) <= len - 1) by (nonlinear_arith)
            requires
                w >= 1,
                len >= 1,
        ;
    }
    1 + (len - 1) / w
}

/// The sub-line of a column, and the distance from that sub-line's start.
pub fn col_to_sub_line(col: usize, len: usize, content_cols: usize) -> (r: (usize, usize))
    ensures
        r.0 == sub_of(col as int, len as int, content_cols as int),
        r.1 == within_sub(col as int, len as int, content_cols as int),
        r.0 < sub_count(len as int, content_cols as int),
{
    if content_cols < 2 || len <= content_cols {
        return (0, col);
    }
    let w: usize = content_cols - 1;
    let n: usize = sub_line_count(len, content_cols);
    let q: usize = col / w;
    let sub: usize = if q < n { q } else { n - 1 };
    proof {
        assert(q * w <= col) by (nonlinear_arith)
            requires
                w >= 1,
                q == col / w,
        ;
        assert(0 <= sub * w <= q * w) by (nonlinear_arith)
            requires
                w >= 1,
                sub <= q,
        ;
    }
    (sub, col - sub * w)
}

/// The first column of a sub-line and the column after its last.
pub fn sub_line_range(sub: usize, len: usize, content_cols: usize) -> (r: (usize, usize))
    requires
        sub < sub_count(len as int, content_cols as int),
    ensures
        r.0 == sub_start(sub as int, len as int, content_cols as int),
        r.1 == sub_end(sub as int, len as int, content_cols as int),
        r.0 <= r.1 <= len,
{
    proof {
        lemma_sub_range(sub as int, len as int, content_cols as int);
    }
    if content_cols < 2 || len <= content_cols {
        return (0, len);
    }
    let w: usize = content_cols - 1;
    let n: usize = sub_line_count(len, content_cols);
    let start: usize = sub * w;
    if sub + 1 < n {
        proof {
            assert((sub + 1) * w == sub * w + w) by (nonlinear_arith);
        }
        (start, start + w)
    } else {
        (start, len)
    }
}

/// Whether the cluster at a column starts with a word character.
pub open spec fn word_col(g: Seq<Seq<char>>, col: int) -> bool {
    0 <= col < g.len() && g[col].len() > 0 && chars::word_char(g[col][0])
}

// ---------------------------------------------------------------------
// Laws
// ---------------------------------------------------------------------

/// The clusters of a line are its text, cut into pieces.
pub open spec fn clustered(t: Seq<char>, line: int) -> bool {
    let g = line_cols(t, line);
    &&& joined(g, g.len() as int) == text::line_content(t, line)
    &&& splits(g, text::line_len(t, line))
}

pub proof fn lemma_joined_prefix(g: Seq<Seq<char>>, n: int, m: int)
    requires
        0 <= n <= m <= g.len(),
    ensures
        joined(g, n).len() == cluster_chars(g, n),
        joined(g, m).len() == cluster_chars(g, m),
        cluster_chars(g, n) <= cluster_chars(g, m),
        joined(g, m).subrange(0, cluster_chars(g, n)) == joined(g, n),
    decreases m,
{
    if m > 0 {
        if n < m {
            lemma_joined_prefix(g, n, m - 1);
            assert(joined(g, m).subrange(0, cluster_chars(g, n)) =~= joined(g, m - 1).subrange(
                0,
                cluster_chars(g, n),
            ));
        } else {
            lemma_joined_prefix(g, n - 1, m - 1);
            assert(joined(g, m).subrange(0, cluster_chars(g, n)) =~= joined(g, n));
        }
    }
}

/// Before the position of a cursor on its line stand as many clusters as its
/// column says, or all of them where there are fewer.
pub proof fn a_column_counts_clusters(t: Seq<char>, c: Cursor)
    requires
        c.line < text::line_count(t),
        clustered(t, c.line as int),
    ensures
        ({
            let g = line_cols(t, c.line as int);
            let n = if c.col < g.len() {
                c.col as int
            } else {
                g.len() as int
            };
            let a = text::line_start(t, c.line as int);
            let p = cursor_index(t, c);
            &&& a <= p <= a + text::line_len(t, c.line as int) <= t.len()
            &&& t.subrange(a, p) == joined(g, n)
            &&& n < c.col ==> p == a + text::line_len(t, c.line as int)
        }),
{
    let line = c.line as int;
    let g = line_cols(t, line);
    let n = if c.col < g.len() {
        c.col as int
    } else {
        g.len() as int
    };
    let a = text::line_start(t, line);
    text::lemma_line_len(t, line);
    lemma_joined_prefix(g, n, g.len() as int);
    lemma_cluster_chars(g, n, g.len() as int);
    let p = cursor_index(t, c);
    assert(p == a + cluster_chars(g, n));
    assert(t.subrange(a, p) =~= text::line_content(t, line).subrange(0, cluster_chars(g, n)));
}

/// Positions follow the order of columns, and different columns of a line
/// are at different positions.
pub proof fn positions_follow_columns(t: Seq<char>, line: usize, a: usize, b: usize)
    requires
        line < text::line_count(t),
        clustered(t, line as int),
        a < b <= col_count(t, line as int),
    ensures
        cursor_index(t, Cursor { line, col: a, preferred_col: 0 }) < cursor_index(
            t,
            Cursor { line, col: b, preferred_col: 0 },
        ),
{
    let g = line_cols(t, line as int);
    lemma_cluster_chars(g, a as int, b as int);
    lemma_cluster_chars(g, b as int, g.len() as int);
}

/// A position on a line lies on one of its columns: not before its start,
/// and before the start of the next.
pub proof fn a_position_lies_on_its_column(t: Seq<char>, p: int)
    requires
        0 <= p <= t.len() < usize::MAX,
        clustered(t, text::line_of(t, p) as int),
    ensures
        ({
            let c = index_cursor(t, p);
            let line = text::line_of(t, p) as int;
            let a = text::line_start(t, line);
            &&& c.line == line
            &&& line < text::line_count(t)
            &&& c.col <= col_count(t, line)
            &&& c.preferred_col == c.col
            &&& a + cluster_chars(line_cols(t, line), c.col as int) <= p || p == a
            &&& c.col < col_count(t, line) ==> p < a + cluster_chars(
                line_cols(t, line),
                c.col + 1,
            )
            &&& cursor_index(t, c) <= p
        }),
{
    let line = text::line_of(t, p) as int;
    let g = line_cols(t, line);
    let a = text::line_start(t, line);
    text::lemma_line_of(t, p);
    text::lemma_breaks_mono(t, 0, p);
    text::lemma_line_len(t, line);
    lemma_cols_ended(g, p - a, 0);
    lemma_cluster_chars(g, 0, g.len() as int);
    let n = offset_col(g, p - a);
    lemma_cluster_chars(g, n, g.len() as int);
    assert(g.len() <= t.len());
}

/// Going to the position of a cursor and back gives the cursor again.
pub proof fn a_cursor_comes_back_from_its_position(t: Seq<char>, line: usize, col: usize)
    requires
        t.len() < usize::MAX,
        line < text::line_count(t),
        clustered(t, line as int),
        col <= col_count(t, line as int),
        ({
            let p = cursor_index(t, Cursor { line, col, preferred_col: col });
            p < text::line_end(t, line as int) || line + 1 == text::line_count(t)
        }),
    ensures
        index_cursor(t, cursor_index(t, Cursor { line, col, preferred_col: col })) == (Cursor {
            line,
            col,
            preferred_col: col,
        }),
{
    let c = Cursor { line, col, preferred_col: col };
    let p = cursor_index(t, c);
    let g = line_cols(t, line as int);
    a_column_counts_clusters(t, c);
    text::lemma_line_start_breaks(t, line as int);
    text::lemma_line_start(t, line as int);
    text::lemma_line_of(t, p);
    let k = text::line_of(t, p) as int;
    text::lemma_breaks_mono(t, text::line_start(t, line as int), p);
    if k > line {
        text::lemma_line_start_mono(t, line + 1, k);
        assert(false);
    }
    column_round_trip(g, text::line_len(t, line as int), col as int);
}

} // verus!
