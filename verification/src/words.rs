//! Identifiers in a line.

use vstd::prelude::*;

use crate::chars;
use crate::chars::{char_is_whitespace, is_word_char, substring};
use crate::columns;
use crate::columns::{grapheme_col_to_char, line_clusters};
use crate::text;
use crate::text::{line_text, rope_len_lines};

verus! {

/// The first column of the run of word columns that ends before `i`.
pub open spec fn word_back(g: Seq<Seq<char>>, i: int) -> int
    decreases i,
{
    if i > 0 && columns::word_col(g, i - 1) {
        word_back(g, i - 1)
    } else {
        i
    }
}

/// The column behind the run of word columns that starts at `i`.
pub open spec fn word_ahead(g: Seq<Seq<char>>, i: int) -> int
    decreases g.len() - i,
{
    if 0 <= i < g.len() && columns::word_col(g, i) {
        word_ahead(g, i + 1)
    } else {
        i
    }
}

/// A column whose cluster starts with white space.
pub open spec fn blank_col(g: Seq<Seq<char>>, i: int) -> bool {
    0 <= i < g.len() && g[i].len() > 0 && chars::whitespace(g[i][0])
}

/// The first column of the run of blank columns that ends before `i`.
pub open spec fn blank_back(g: Seq<Seq<char>>, i: int) -> int
    decreases i,
{
    if i > 0 && blank_col(g, i - 1) {
        blank_back(g, i - 1)
    } else {
        i
    }
}

/// The column behind the run of blank columns that starts at `i`.
pub open spec fn blank_ahead(g: Seq<Seq<char>>, i: int) -> int
    decreases g.len() - i,
{
    if 0 <= i < g.len() && blank_col(g, i) {
        blank_ahead(g, i + 1)
    } else {
        i
    }
}

/// A column in the white space between two identifiers.
pub open spec fn between_words(g: Seq<Seq<char>>, col: int) -> bool {
    &&& blank_col(g, col)
    &&& columns::word_col(g, blank_back(g, col) - 1)
    &&& columns::word_col(g, blank_ahead(g, col))
}

/// The word column that stands for `col`: itself, or else the one before,
/// or else the last one of the identifier before the white space.
pub open spec fn word_pivot(g: Seq<Seq<char>>, col: int) -> Option<int> {
    if columns::word_col(g, col) {
        Some(col)
    } else if columns::word_col(g, col - 1) {
        Some(col - 1)
    } else if between_words(g, col) {
        Some(blank_back(g, col) - 1)
    } else {
        None
    }
}

/// The columns of the identifier at `col`, or else of the one that ends
/// there, or else of the one before the white space between two.
pub open spec fn word_at(g: Seq<Seq<char>>, col: int) -> Option<(int, int)> {
    match word_pivot(g, col) {
        Some(p) => Some((word_back(g, p), word_ahead(g, p))),
        None => None,
    }
}

/// A run of word columns has nothing but word columns in it, and none next
/// to it.
pub proof fn word_is_a_whole_run(g: Seq<Seq<char>>, col: int)
    requires
        word_at(g, col) is Some,
    ensures
        ({
            let (a, b) = word_at(g, col)->0;
            &&& 0 <= a < b <= g.len()
            &&& forall|i: int| a <= i < b ==> #[trigger] columns::word_col(g, i)
            &&& !columns::word_col(g, a - 1)
            &&& !columns::word_col(g, b)
        }),
{
    let p = word_pivot(g, col)->0;
    lemma_word_back(g, p);
    lemma_word_ahead(g, p);
}

pub proof fn lemma_word_back(g: Seq<Seq<char>>, i: int)
    requires
        0 <= i <= g.len(),
    ensures
        0 <= word_back(g, i) <= i,
        forall|j: int| word_back(g, i) <= j < i ==> #[trigger] columns::word_col(g, j),
        !columns::word_col(g, word_back(g, i) - 1),
    decreases i,
{
    if i > 0 && columns::word_col(g, i - 1) {
        lemma_word_back(g, i - 1);
    }
}

pub proof fn lemma_word_ahead(g: Seq<Seq<char>>, i: int)
    requires
        0 <= i <= g.len(),
    ensures
        i <= word_ahead(g, i) <= g.len(),
        columns::word_col(g, i) ==> i < word_ahead(g, i),
        forall|j: int| i <= j < word_ahead(g, i) ==> #[trigger] columns::word_col(g, j),
        !columns::word_col(g, word_ahead(g, i)),
    decreases g.len() - i,
{
    if i < g.len() && columns::word_col(g, i) {
        lemma_word_ahead(g, i + 1);
    }
}

/// Whether the cluster at a column starts with a word character.
pub fn is_word_col(v: &Vec<String>, col: usize) -> (r: bool)
    ensures
        r == columns::word_col(v@.map_values(|x: String| x@), col as int),
{
    let ghost g = v@.map_values(|x: String| x@);
    if col >= v.len() {
        return false;
    }
    assert(g[col as int] == v[col as int]@);
    let s = v[col].as_str();
    s.unicode_len() > 0 && is_word_char(s.get_char(0))
}

fn line_words(rope: &ropey::Rope, line: usize) -> (v: Vec<String>)
    ensures
        v@.map_values(|x: String| x@) == columns::line_cols(text::rope_text(*rope), line as int),
{
    let v = line_clusters(rope, line);
    assert(v@.map_values(|x: String| x@) =~= columns::line_cols(
        text::rope_text(*rope),
        line as int,
    ));
    v
}

/// The first column of the identifier that ends before `col`.
pub fn find_word_back(v: &Vec<String>, col: usize) -> (r: usize)
    requires
        col <= v.len(),
    ensures
        r == word_back(v@.map_values(|x: String| x@), col as int),
        r <= col,
{
    let ghost g = v@.map_values(|x: String| x@);
    let mut i: usize = col;
    while i > 0 && is_word_col(v, i - 1)
        invariant
            i <= col,
            g == v@.map_values(|x: String| x@),
            word_back(g, col as int) == word_back(g, i as int),
        decreases i,
    {
        i = i - 1;
    }
    i
}

fn find_word_ahead(v: &Vec<String>, col: usize) -> (r: usize)
    requires
        col <= v.len(),
    ensures
        r == word_ahead(v@.map_values(|x: String| x@), col as int),
        col <= r <= v.len(),
{
    let ghost g = v@.map_values(|x: String| x@);
    let mut i: usize = col;
    while i < v.len() && is_word_col(v, i)
        invariant
            col <= i <= v.len(),
            g == v@.map_values(|x: String| x@),
            word_ahead(g, col as int) == word_ahead(g, i as int),
        decreases v.len() - i,
    {
        i = i + 1;
    }
    i
}

/// The characters of a line from one column up to another.
pub open spec fn cols_text(t: Seq<char>, line: int, a: int, b: int) -> Seq<char> {
    let g = columns::line_cols(t, line);
    text::line_content(t, line).subrange(columns::col_offset(g, a), columns::col_offset(g, b))
}

/// The identifier under the cursor: its first column and its text.
pub open spec fn word_under(t: Seq<char>, line: int, col: int) -> Option<(int, Seq<char>)> {
    if line >= text::line_count(t) {
        None
    } else {
        match word_at(columns::line_cols(t, line), col) {
            Some((a, b)) => Some((a, cols_text(t, line, a, b))),
            None => None,
        }
    }
}

/// The characters of a line from one column up to another.
pub fn text_of_cols(rope: &ropey::Rope, line: usize, a: usize, b: usize) -> (s: String)
    requires
        line < text::line_count(text::rope_text(*rope)),
        a <= b,
    ensures
        s@ == cols_text(text::rope_text(*rope), line as int, a as int, b as int),
{
    let ghost t = text::rope_text(*rope);
    let ghost g = columns::line_cols(t, line as int);
    let whole = line_text(rope, line);
    let from: usize = grapheme_col_to_char(rope, line, a);
    let to: usize = grapheme_col_to_char(rope, line, b);
    proof {
        text::lemma_line_len(t, line as int);
        let n = g.len() as int;
        let x = if a < n { a as int } else { n };
        let y = if b < n { b as int } else { n };
        columns::lemma_cluster_chars(g, x, y);
    }
    substring(whole.as_str(), from, to)
}

/// Whether the cluster at a column starts with white space.
fn is_blank_col(v: &Vec<String>, col: usize) -> (r: bool)
    ensures
        r == blank_col(v@.map_values(|x: String| x@), col as int),
{
    let ghost g = v@.map_values(|x: String| x@);
    if col >= v.len() {
        return false;
    }
    assert(g[col as int] == v[col as int]@);
    let s = v[col].as_str();
    s.unicode_len() > 0 && char_is_whitespace(s.get_char(0))
}

fn find_blank_back(v: &Vec<String>, col: usize) -> (r: usize)
    ensures
        r == blank_back(v@.map_values(|x: String| x@), col as int),
        r <= col,
{
    let ghost g = v@.map_values(|x: String| x@);
    let mut i: usize = col;
    while i > 0 && is_blank_col(v, i - 1)
        invariant
            i <= col,
            g == v@.map_values(|x: String| x@),
            blank_back(g, col as int) == blank_back(g, i as int),
        decreases i,
    {
        i = i - 1;
    }
    i
}

fn find_blank_ahead(v: &Vec<String>, col: usize) -> (r: usize)
    ensures
        r == blank_ahead(v@.map_values(|x: String| x@), col as int),
{
    let ghost g = v@.map_values(|x: String| x@);
    let mut i: usize = col;
    while i < v.len() && is_blank_col(v, i)
        invariant
            g == v@.map_values(|x: String| x@),
            blank_ahead(g, col as int) == blank_ahead(g, i as int),
        decreases v.len() - i,
    {
        i = i + 1;
    }
    i
}

fn find_pivot(v: &Vec<String>, col: usize) -> (r: Option<usize>)
    ensures
        match r {
            Some(p) => word_pivot(v@.map_values(|x: String| x@), col as int) == Some(p as int)
                && p < v.len(),
            None => word_pivot(v@.map_values(|x: String| x@), col as int) is None,
        },
{
    if is_word_col(v, col) {
        return Some(col);
    }
    if col > 0 && is_word_col(v, col - 1) {
        return Some(col - 1);
    }
    if is_blank_col(v, col) {
        let p: usize = find_blank_back(v, col);
        let q: usize = find_blank_ahead(v, col);
        if p > 0 && is_word_col(v, p - 1) && is_word_col(v, q) {
            return Some(p - 1);
        }
    }
    None
}

/// Finds the identifier under the cursor.
pub fn find_word(rope: &ropey::Rope, line: usize, col: usize) -> (r: Option<(usize, String)>)
    ensures
        match r {
            Some(w) => word_under(text::rope_text(*rope), line as int, col as int) == Some(
                (w.0 as int, w.1@),
            ),
            None => word_under(text::rope_text(*rope), line as int, col as int) is None,
        },
{
    if line >= rope_len_lines(rope) {
        return None;
    }
    let v = line_words(rope, line);
    let p: usize = match find_pivot(&v, col) {
        Some(p) => p,
        None => {
            return None;
        },
    };
    let a: usize = find_word_back(&v, p);
    let b: usize = find_word_ahead(&v, p);
    Some((a, text_of_cols(rope, line, a, b)))
}

/// The first column of the identifier that ends at `col` on a line.
pub fn identifier_start(rope: &ropey::Rope, line: usize, col: usize) -> (r: usize)
    ensures
        ({
            let g = columns::line_cols(text::rope_text(*rope), line as int);
            r == word_back(
                g,
                if col <= g.len() {
                    col as int
                } else {
                    g.len() as int
                },
            )
        }),
{
    let v = line_words(rope, line);
    let c: usize = if col <= v.len() {
        col
    } else {
        v.len()
    };
    find_word_back(&v, c)
}

// ---------------------------------------------------------------------
// Laws
// ---------------------------------------------------------------------

/// The columns from `a` up to `b` are an identifier: word columns with none
/// next to them.
pub open spec fn is_word(g: Seq<Seq<char>>, a: int, b: int) -> bool {
    &&& 0 <= a < b <= g.len()
    &&& forall|i: int| a <= i < b ==> #[trigger] columns::word_col(g, i)
    &&& !columns::word_col(g, a - 1)
    &&& !columns::word_col(g, b)
}

proof fn lemma_word_is_found(g: Seq<Seq<char>>, a: int, b: int, p: int)
    requires
        is_word(g, a, b),
        a <= p < b,
    ensures
        word_back(g, p) == a,
        word_ahead(g, p) == b,
{
    lemma_word_back(g, p);
    lemma_word_ahead(g, p);
    let x = word_back(g, p);
    let y = word_ahead(g, p);
    if x < a {
        assert(columns::word_col(g, a - 1));
    }
    if x > a {
        assert(columns::word_col(g, x - 1));
    }
    if y > b {
        assert(columns::word_col(g, b));
    }
    if y < b {
        assert(columns::word_col(g, y));
    }
}

proof fn lemma_blank_back(g: Seq<Seq<char>>, i: int, n: int)
    requires
        0 <= n <= i <= g.len(),
        forall|k: int| n <= k < i ==> #[trigger] blank_col(g, k),
        n > 0 ==> !blank_col(g, n - 1),
    ensures
        blank_back(g, i) == n,
    decreases i - n,
{
    if n < i {
        assert(blank_col(g, i - 1));
        lemma_blank_back(g, i - 1, n);
    }
}

proof fn lemma_blank_ahead(g: Seq<Seq<char>>, i: int, n: int)
    requires
        0 <= i <= n <= g.len(),
        forall|k: int| i <= k < n ==> #[trigger] blank_col(g, k),
        n < g.len() ==> !blank_col(g, n),
    ensures
        blank_ahead(g, i) == n,
    decreases n - i,
{
    if i < n {
        assert(blank_col(g, i));
        lemma_blank_ahead(g, i + 1, n);
    }
}

/// The identifier under the cursor is the one it stands in or right behind.
pub proof fn the_word_is_found_in_it_and_behind_it(g: Seq<Seq<char>>, a: int, b: int, col: int)
    requires
        is_word(g, a, b),
        a <= col <= b,
    ensures
        word_at(g, col) == Some((a, b)),
{
    if col < b {
        assert(columns::word_col(g, col));
        lemma_word_is_found(g, a, b, col);
    } else {
        assert(columns::word_col(g, b - 1));
        lemma_word_is_found(g, a, b, b - 1);
    }
}

/// In the white space between two identifiers it is the one before; in any
/// other place away from identifiers there is none.
pub proof fn between_words_the_one_before_counts(g: Seq<Seq<char>>, a: int, b: int, c: int, col: int)
    requires
        is_word(g, a, b),
        b < col < c < g.len(),
        forall|k: int| b <= k < c ==> #[trigger] blank_col(g, k) && !columns::word_col(g, k),
        !blank_col(g, b - 1),
        !blank_col(g, c),
    ensures
        columns::word_col(g, c) ==> word_at(g, col) == Some((a, b)),
        !columns::word_col(g, c) ==> word_at(g, col) is None,
{
    assert(blank_col(g, col) && !columns::word_col(g, col));
    assert(blank_col(g, col - 1) && !columns::word_col(g, col - 1));
    lemma_blank_back(g, col, b);
    lemma_blank_ahead(g, col, c);
    assert(columns::word_col(g, b - 1));
    lemma_word_is_found(g, a, b, b - 1);
}

} // verus!
