//! Buffer text: a `ropey::Rope` seen as a sequence of characters, and the
//! lines that sequence falls into.

use vstd::prelude::*;

verus! {

/// The rope that holds a buffer's text.
#[verifier::external_type_specification]
#[verifier::external_body]
pub struct ExRope(ropey::Rope);

/// The characters that a rope holds, in order.
pub uninterp spec fn rope_text(r: ropey::Rope) -> Seq<char>;

// ---------------------------------------------------------------------
// Lines of a character sequence
// ---------------------------------------------------------------------

/// The characters that can end a line.
pub open spec fn is_break_char(c: char) -> bool {
    c == '\n' || c == '\r' || c == '\u{b}' || c == '\u{c}' || c == '\u{85}' || c == '\u{2028}'
        || c == '\u{2029}'
}

/// A line break ends with the character at `i`. The `\r` of a `\r\n` pair
/// does not end one: the pair is a single break.
pub open spec fn break_at(t: Seq<char>, i: int) -> bool {
    &&& 0 <= i < t.len()
    &&& is_break_char(t[i])
    &&& !(t[i] == '\r' && i + 1 < t.len() && t[i + 1] == '\n')
}

/// How many line breaks end before position `i`.
pub open spec fn breaks_before(t: Seq<char>, i: int) -> nat
    decreases i,
{
    if i <= 0 {
        0
    } else {
        breaks_before(t, i - 1) + if break_at(t, i - 1) { 1nat } else { 0nat }
    }
}

/// The number of lines: one more than the number of breaks.
pub open spec fn line_count(t: Seq<char>) -> nat {
    breaks_before(t, t.len() as int) + 1
}

/// The line that position `i` lies on.
pub open spec fn line_of(t: Seq<char>, i: int) -> nat {
    breaks_before(t, i)
}

/// The position just after the first break that ends at or after `i`, or
/// the end of the text.
pub open spec fn after_break(t: Seq<char>, i: int) -> int
    decreases t.len() - i,
{
    if i < 0 || i >= t.len() {
        t.len() as int
    } else if break_at(t, i) {
        i + 1
    } else {
        after_break(t, i + 1)
    }
}

/// Where line `k` starts. Past the last line this is the end of the text.
pub open spec fn line_start(t: Seq<char>, k: int) -> int
    decreases k,
{
    if k <= 0 {
        0
    } else {
        after_break(t, line_start(t, k - 1))
    }
}

/// Where line `k` ends, its break included.
pub open spec fn line_end(t: Seq<char>, k: int) -> int {
    line_start(t, k + 1)
}

/// The characters of line `k`, its break included.
pub open spec fn line_full(t: Seq<char>, k: int) -> Seq<char> {
    t.subrange(line_start(t, k), line_end(t, k))
}

/// How long a line is without a trailing `\n` or `\r\n`.
pub open spec fn stripped_len(line: Seq<char>) -> int {
    let n = line.len() as int;
    if n > 0 && line[n - 1] == '\n' {
        if n > 1 && line[n - 2] == '\r' {
            n - 2
        } else {
            n - 1
        }
    } else {
        n
    }
}

/// The number of characters on line `k`, its `\n` or `\r\n` left out. Zero
/// for a line that does not exist.
pub open spec fn line_len(t: Seq<char>, k: int) -> int {
    if 0 <= k < line_count(t) {
        stripped_len(line_full(t, k))
    } else {
        0
    }
}

/// The characters of line `k` without its `\n` or `\r\n`.
pub open spec fn line_content(t: Seq<char>, k: int) -> Seq<char> {
    t.subrange(line_start(t, k), line_start(t, k) + line_len(t, k))
}

/// `t` with `s` put in at position `i`.
pub open spec fn inserted(t: Seq<char>, i: int, s: Seq<char>) -> Seq<char> {
    t.subrange(0, i) + s + t.subrange(i, t.len() as int)
}

/// `t` without the characters from `a` up to `b`.
pub open spec fn removed(t: Seq<char>, a: int, b: int) -> Seq<char> {
    t.subrange(0, a) + t.subrange(b, t.len() as int)
}

// ---------------------------------------------------------------------
// Facts about lines
// ---------------------------------------------------------------------

pub proof fn lemma_after_break(t: Seq<char>, i: int)
    requires
        0 <= i <= t.len(),
    ensures
        i <= after_break(t, i) <= t.len(),
        i < t.len() ==> i < after_break(t, i),
        forall|j: int| i <= j < after_break(t, i) - 1 ==> !break_at(t, j),
        after_break(t, i) == t.len() || break_at(t, after_break(t, i) - 1),
    decreases t.len() - i,
{
    if i < t.len() && !break_at(t, i) {
        lemma_after_break(t, i + 1);
    }
}

pub proof fn lemma_line_start(t: Seq<char>, k: int)
    ensures
        0 <= line_start(t, k) <= t.len(),
        0 <= k ==> line_start(t, k) <= line_start(t, k + 1),
        line_start(t, k + 1) <= t.len(),
    decreases k,
{
    if k > 0 {
        lemma_line_start(t, k - 1);
        lemma_after_break(t, line_start(t, k - 1));
    }
    lemma_after_break(t, line_start(t, if k < 0 { 0 } else { k }));
}

pub proof fn lemma_line_start_mono(t: Seq<char>, a: int, b: int)
    requires
        a <= b,
    ensures
        line_start(t, a) <= line_start(t, b),
        0 <= line_start(t, a),
        line_start(t, b) <= t.len(),
    decreases b - a,
{
    lemma_line_start(t, a);
    lemma_line_start(t, b);
    if a < b {
        lemma_line_start_mono(t, a, b - 1);
        lemma_line_start(t, b - 1);
    }
}

/// Between two positions with no break in between the count stays.
proof fn lemma_breaks_flat(t: Seq<char>, a: int, b: int)
    requires
        0 <= a <= b <= t.len(),
        forall|j: int| a <= j < b ==> !break_at(t, j),
    ensures
        breaks_before(t, b) == breaks_before(t, a),
    decreases b - a,
{
    if a < b {
        lemma_breaks_flat(t, a, b - 1);
    }
}

pub proof fn lemma_breaks_mono(t: Seq<char>, a: int, b: int)
    requires
        a <= b,
    ensures
        breaks_before(t, a) <= breaks_before(t, b),
        0 <= a ==> breaks_before(t, b) <= breaks_before(t, a) + (b - a),
    decreases b - a,
{
    if a < b {
        lemma_breaks_mono(t, a, b - 1);
    }
}

/// Every line but the last starts right after a break, and the count of
/// breaks before it is its own number.
pub proof fn lemma_line_start_breaks(t: Seq<char>, k: int)
    requires
        0 <= k < line_count(t),
    ensures
        breaks_before(t, line_start(t, k)) == k,
    decreases k,
{
    if k > 0 {
        let p = line_start(t, k - 1);
        lemma_line_start_breaks(t, k - 1);
        lemma_line_start(t, k - 1);
        lemma_after_break(t, p);
        let q = after_break(t, p);
        if q == t.len() && !(q > 0 && q > p && break_at(t, q - 1)) {
            lemma_breaks_flat(t, p, q);
            assert(breaks_before(t, t.len() as int) == k - 1);
            assert(false);
        }
        lemma_breaks_flat(t, p, q - 1);
    }
}

/// Past the last line every line starts at the end.
pub proof fn lemma_line_start_past(t: Seq<char>, k: int)
    requires
        k >= line_count(t),
    ensures
        line_start(t, k) == t.len(),
    decreases k,
{
    let n = line_count(t) as int;
    if k > n {
        lemma_line_start_past(t, k - 1);
        lemma_after_break(t, line_start(t, k - 1));
    } else {
        let p = line_start(t, n - 1);
        lemma_line_start_breaks(t, n - 1);
        lemma_line_start(t, n - 1);
        lemma_after_break(t, p);
        let q = after_break(t, p);
        if q < t.len() || (q > p && break_at(t, q - 1)) {
            lemma_breaks_flat(t, p, q - 1);
            assert(breaks_before(t, q) == breaks_before(t, q - 1) + 1);
            lemma_breaks_mono(t, q, t.len() as int);
            assert(false);
        }
    }
}

/// A position lies between the start and the end of its line.
pub proof fn lemma_line_of(t: Seq<char>, i: int)
    requires
        0 <= i <= t.len(),
    ensures
        line_of(t, i) < line_count(t),
        line_start(t, line_of(t, i) as int) <= i <= line_end(t, line_of(t, i) as int),
        i < t.len() ==> i < line_end(t, line_of(t, i) as int),
{
    lemma_breaks_mono(t, i, t.len() as int);
    let k = line_of(t, i) as int;
    lemma_line_start_breaks(t, k);
    lemma_line_start(t, k);
    if line_start(t, k) > i {
        lemma_breaks_mono(t, i, line_start(t, k));
        if k > 0 {
            let p = line_start(t, k - 1);
            lemma_line_start_breaks(t, k - 1);
            lemma_line_start(t, k - 1);
            lemma_after_break(t, p);
            let q = after_break(t, p);
            if i < p {
                lemma_breaks_mono(t, i, p);
            } else {
                lemma_breaks_flat(t, p, i);
            }
            assert(false);
        }
    }
    if k + 1 < line_count(t) {
        lemma_line_start_breaks(t, k + 1);
        if line_start(t, k + 1) <= i {
            lemma_breaks_mono(t, line_start(t, k + 1), i);
        }
    } else {
        lemma_line_start_past(t, k + 1);
    }
}

/// The stripped length of a line is within the line.
pub proof fn lemma_line_len(t: Seq<char>, k: int)
    ensures
        0 <= line_len(t, k),
        0 <= k ==> 0 <= line_start(t, k) <= line_start(t, k) + line_len(t, k) <= t.len(),
        0 <= k < line_count(t) ==> line_start(t, k) + line_len(t, k) <= line_end(t, k),
        0 <= k ==> line_content(t, k).len() == line_len(t, k),
{
    lemma_line_start(t, k);
}

/// Texts that begin alike have the same breaks there, but for the last
/// character that they share.
pub proof fn lemma_shared_breaks(t: Seq<char>, u: Seq<char>, m: int, i: int)
    requires
        0 <= m <= t.len(),
        m <= u.len(),
        t.subrange(0, m) == u.subrange(0, m),
        0 <= i < m,
    ensures
        breaks_before(t, i) == breaks_before(u, i),
        i + 1 < m ==> break_at(t, i) == break_at(u, i),
        t[i] == u[i],
    decreases i,
{
    assert(t.subrange(0, m)[i] == t[i] && u.subrange(0, m)[i] == u[i]);
    if i + 1 < m {
        assert(t.subrange(0, m)[i + 1] == t[i + 1] && u.subrange(0, m)[i + 1] == u[i + 1]);
    }
    if i > 0 {
        lemma_shared_breaks(t, u, m, i - 1);
    }
}

/// Texts that begin alike have the same lines there.
pub proof fn lines_of_a_shared_beginning(t: Seq<char>, u: Seq<char>, m: int, k: int)
    requires
        0 <= m <= t.len(),
        m <= u.len(),
        t.subrange(0, m) == u.subrange(0, m),
        0 <= k,
    ensures
        line_start(t, k) < m ==> line_start(u, k) == line_start(t, k),
        line_start(t, k) >= m ==> line_start(u, k) >= m,
    decreases k,
{
    if k > 0 {
        let p = line_start(t, k - 1);
        let q = line_start(u, k - 1);
        lines_of_a_shared_beginning(t, u, m, k - 1);
        lemma_line_start(t, k - 1);
        lemma_line_start(u, k - 1);
        lemma_after_break(t, p);
        lemma_after_break(u, q);
        if p < m {
            let a = after_break(t, p);
            let b = after_break(u, p);
            if a < m {
                lemma_shared_breaks(t, u, m, a - 1);
                if b < a {
                    lemma_shared_breaks(t, u, m, b - 1);
                }
            } else if b < m {
                lemma_shared_breaks(t, u, m, b - 1);
            }
        }
    }
}

/// A place before the end of a shared beginning is at the same position in
/// both texts, unless the beginning ends in the middle of a line break.
pub proof fn places_of_a_shared_beginning(
    t: Seq<char>,
    u: Seq<char>,
    m: int,
    line: int,
    col: int,
)
    requires
        0 <= m <= t.len(),
        m <= u.len(),
        t.subrange(0, m) == u.subrange(0, m),
        0 <= line < line_count(t),
        0 <= col,
        line_start(t, line) + col <= m,
        line_start(t, line) + col <= line_start(t, line + 1),
        line_start(t, line) == m && m > 0 ==> t[m - 1] != '\r',
    ensures
        line < line_count(u),
        line_start(u, line) == line_start(t, line),
        line_start(u, line) + col <= line_start(u, line + 1),
{
    let p = line_start(t, line);
    lemma_line_start(t, line);
    lemma_line_start_breaks(t, line);
    lines_of_a_shared_beginning(t, u, m, line);
    lines_of_a_shared_beginning(t, u, m, line + 1);
    if p < m {
        lemma_shared_breaks(t, u, m, p);
    } else if m > 0 {
        let r = line_start(t, line - 1);
        lemma_line_start(t, line - 1);
        lemma_line_start_breaks(t, line - 1);
        lemma_after_break(t, r);
        lines_of_a_shared_beginning(t, u, m, line - 1);
        lemma_after_break(u, r);
        lemma_shared_breaks(t, u, m, m - 1);
        assert(r < m);
        assert(breaks_before(t, m) == breaks_before(t, m - 1) + if break_at(t, m - 1) {
            1nat
        } else {
            0nat
        });
        if !break_at(t, m - 1) {
            lemma_breaks_flat(t, r, m - 1);
        }
        assert(break_at(t, m - 1));
        assert(break_at(u, m - 1));
        let b = after_break(u, r);
        if b < m {
            lemma_shared_breaks(t, u, m, b - 1);
        }
        if b > m {
            assert(!break_at(u, m - 1));
        }
    }
    lemma_line_start(u, line);
    lemma_breaks_mono(u, line_start(u, line), u.len() as int);
}

/// A line starts at the beginning or right behind a break, and as many
/// breaks stand before it as its number says: there is no other such place.
pub proof fn line_start_is_unique(t: Seq<char>, k: int, p: int)
    requires
        0 <= k,
        0 <= p <= t.len(),
        breaks_before(t, p) == k,
        p == 0 || break_at(t, p - 1),
    ensures
        k < line_count(t),
        line_start(t, k) == p,
{
    lemma_line_of(t, p);
    let r = line_start(t, k);
    lemma_line_start(t, k);
    lemma_line_start_breaks(t, k);
    if r < p {
        lemma_breaks_mono(t, r, p - 1);
    }
}

/// Lines end in line feeds and in nothing else.
pub open spec fn plain_lines(t: Seq<char>) -> bool {
    forall|i: int| 0 <= i < t.len() && is_break_char(#[trigger] t[i]) ==> t[i] == '\n'
}

/// How many line feeds a text holds.
pub open spec fn feeds(s: Seq<char>) -> int
    decreases s.len(),
{
    if s.len() == 0 {
        0
    } else {
        feeds(s.drop_last()) + if s.last() == '\n' {
            1int
        } else {
            0
        }
    }
}

proof fn lemma_feeds_concat(a: Seq<char>, b: Seq<char>)
    ensures
        feeds(a + b) == feeds(a) + feeds(b),
        feeds(b) >= 0,
    decreases b.len(),
{
    if b.len() == 0 {
        assert(a + b =~= a);
    } else {
        lemma_feeds_concat(a, b.drop_last());
        assert((a + b).drop_last() =~= a + b.drop_last());
    }
}

pub proof fn lemma_feeds_are_breaks(t: Seq<char>, n: int)
    requires
        plain_lines(t),
        0 <= n <= t.len(),
    ensures
        breaks_before(t, n) == feeds(t.subrange(0, n)),
        forall|i: int| 0 <= i < t.len() ==> break_at(t, i) == (#[trigger] t[i] == '\n'),
    decreases n,
{
    if n > 0 {
        lemma_feeds_are_breaks(t, n - 1);
        assert(t.subrange(0, n).drop_last() =~= t.subrange(0, n - 1));
        assert(t.subrange(0, n).last() == t[n - 1]);
        assert(break_at(t, n - 1) == (t[n - 1] == '\n'));
    }
}

/// A text put into another moves the lines below the place down by as many
/// as it has line feeds, and leaves what stands on them.
pub proof fn lines_below_an_insertion_keep_their_text(t: Seq<char>, at: int, x: Seq<char>, k: int)
    requires
        plain_lines(t),
        plain_lines(x),
        0 <= at <= t.len(),
        breaks_before(t, at) < k < line_count(t),
    ensures
        k + feeds(x) < line_count(inserted(t, at, x)),
        line_start(inserted(t, at, x), k + feeds(x)) == line_start(t, k) + x.len(),
        line_content(inserted(t, at, x), k + feeds(x)) == line_content(t, k),
        line_full(inserted(t, at, x), k + feeds(x)) == line_full(t, k),
        breaks_before(inserted(t, at, x), at) == breaks_before(t, at),
{
    let u = inserted(t, at, x);
    assert forall|i: int| 0 <= i < u.len() && is_break_char(#[trigger] u[i]) implies u[i]
        == '\n' by {
        if i < at {
            assert(u[i] == t[i]);
        } else if i < at + x.len() {
            assert(u[i] == x[i - at]);
        } else {
            assert(u[i] == t[i - x.len()]);
        }
    }
    let p = line_start(t, k);
    let p2 = line_start(t, k + 1);
    lemma_line_start(t, k);
    lemma_line_start_breaks(t, k);
    if p <= at {
        lemma_breaks_mono(t, p, at);
    }
    lemma_shift(t, u, at, x, p);
    lemma_shift(t, u, at, x, p2);
    lemma_shift(t, u, at, x, t.len() as int);
    lemma_feeds_are_breaks(t, at);
    lemma_feeds_are_breaks(u, at);
    assert(u.subrange(0, at) =~= t.subrange(0, at));
    lemma_starts_behind_break(t, k);
    lemma_feeds_concat(seq![], x);
    assert(break_at(t, p - 1));
    lemma_feeds_are_breaks(u, u.len() as int);
    assert(u[p - 1 + x.len()] == t[p - 1]);
    assert(break_at(u, p - 1 + x.len()));
    line_start_is_unique(u, k + feeds(x), p + x.len());
    if k + 1 < line_count(t) {
        lemma_line_start_breaks(t, k + 1);
        lemma_starts_behind_break(t, k + 1);
        assert(p2 > p) by {
            if p2 <= p {
                lemma_breaks_mono(t, p2, p);
            }
        }
        assert(u[p2 - 1 + x.len()] == t[p2 - 1]);
        assert(break_at(u, p2 - 1 + x.len()));
        line_start_is_unique(u, k + 1 + feeds(x), p2 + x.len());
    } else {
        lemma_line_start_past(t, k + 1);
        lemma_line_start_past(u, k + 1 + feeds(x));
    }
    assert(line_full(u, k + feeds(x)) =~= line_full(t, k));
    lemma_line_len(t, k);
    assert(line_content(u, k + feeds(x)) =~= line_content(t, k));
}

proof fn lemma_starts_behind_break(t: Seq<char>, k: int)
    requires
        0 < k < line_count(t),
    ensures
        line_start(t, k) > 0,
        break_at(t, line_start(t, k) - 1),
{
    let r = line_start(t, k - 1);
    lemma_line_start(t, k - 1);
    lemma_line_start_breaks(t, k - 1);
    lemma_line_start_breaks(t, k);
    lemma_after_break(t, r);
    let p = after_break(t, r);
    if !(p > r && break_at(t, p - 1)) {
        lemma_breaks_flat(t, r, p);
    }
}

pub proof fn lemma_shift(t: Seq<char>, u: Seq<char>, at: int, x: Seq<char>, p: int)
    requires
        plain_lines(t),
        plain_lines(u),
        u == inserted(t, at, x),
        0 <= at <= p <= t.len(),
    ensures
        breaks_before(u, p + x.len()) == breaks_before(t, p) + feeds(x),
{
    lemma_feeds_are_breaks(t, p);
    lemma_feeds_are_breaks(u, p + x.len());
    let a = t.subrange(0, at);
    let b = t.subrange(at, p);
    assert(t.subrange(0, p) =~= a + b);
    assert(u.subrange(0, p + x.len()) =~= (a + x) + b);
    lemma_feeds_concat(a, b);
    lemma_feeds_concat(a, x);
    lemma_feeds_concat(a + x, b);
}

// ---------------------------------------------------------------------
// The rope
// ---------------------------------------------------------------------

/// `ropey::Rope::from_str`: the rope holds the characters of `s`.
#[verifier::external_body]
pub(crate) fn rope_from_str(s: &str) -> (r: ropey::Rope)
    ensures
        rope_text(r) == s@,
{
    ropey::Rope::from_str(s)
}

/// `ropey::Rope::clone`: the copy holds the same characters.
#[verifier::external_body]
pub(crate) fn rope_clone(r: &ropey::Rope) -> (c: ropey::Rope)
    ensures
        rope_text(c) == rope_text(*r),
{
    r.clone()
}

/// `ropey::Rope::len_chars`: the number of characters.
#[verifier::external_body]
pub(crate) fn rope_len(r: &ropey::Rope) -> (n: usize)
    ensures
        n == rope_text(*r).len(),
{
    r.len_chars()
}

/// `ropey::Rope::len_lines`: the number of lines, with every Unicode line
/// break counted and `\r\n` counted once.
#[verifier::external_body]
pub(crate) fn rope_len_lines(r: &ropey::Rope) -> (n: usize)
    ensures
        n == line_count(rope_text(*r)),
{
    r.len_lines()
}

/// `ropey::Rope::line_to_char`: the position of the first character of a
/// line, or the end of the text for the line past the last. It panics
/// beyond that.
#[verifier::external_body]
pub(crate) fn rope_line_to_char(r: &ropey::Rope, line: usize) -> (i: usize)
    requires
        line <= line_count(rope_text(*r)),
    ensures
        i == line_start(rope_text(*r), line as int),
{
    r.line_to_char(line)
}

/// `ropey::Rope::char_to_line`: the number of line breaks that end before a
/// position. It panics past the end of the text.
#[verifier::external_body]
pub(crate) fn rope_char_to_line(r: &ropey::Rope, i: usize) -> (line: usize)
    requires
        i <= rope_text(*r).len(),
    ensures
        line == line_of(rope_text(*r), i as int),
{
    r.char_to_line(i)
}

/// `ropey::Rope::char`: the character at a position. It panics at or past
/// the end of the text.
#[verifier::external_body]
pub(crate) fn rope_char(r: &ropey::Rope, i: usize) -> (c: char)
    requires
        i < rope_text(*r).len(),
    ensures
        c == rope_text(*r)[i as int],
{
    r.char(i)
}

/// `ropey::Rope::slice`: the characters of a range. It panics when the
/// range is reversed or ends past the end of the text.
#[verifier::external_body]
pub(crate) fn rope_slice(r: &ropey::Rope, a: usize, b: usize) -> (s: String)
    requires
        a <= b <= rope_text(*r).len(),
    ensures
        s@ == rope_text(*r).subrange(a as int, b as int),
{
    r.slice(a..b).to_string()
}

/// `ropey::Rope::insert`: puts a string in at a position. It panics past
/// the end of the text.
#[verifier::external_body]
pub(crate) fn rope_insert(r: &mut ropey::Rope, i: usize, s: &str)
    requires
        i <= rope_text(*old(r)).len(),
    ensures
        rope_text(*final(r)) == inserted(rope_text(*old(r)), i as int, s@),
{
    r.insert(i, s)
}

/// `ropey::Rope::insert_char`: puts one character in at a position. It
/// panics past the end of the text.
#[verifier::external_body]
pub(crate) fn rope_insert_char(r: &mut ropey::Rope, i: usize, c: char)
    requires
        i <= rope_text(*old(r)).len(),
    ensures
        rope_text(*final(r)) == inserted(rope_text(*old(r)), i as int, seq![c]),
{
    r.insert_char(i, c)
}

/// `ropey::Rope::remove`: takes out the characters of a range. It panics
/// when the range is reversed or ends past the end of the text.
#[verifier::external_body]
pub(crate) fn rope_remove(r: &mut ropey::Rope, a: usize, b: usize)
    requires
        a <= b <= rope_text(*old(r)).len(),
    ensures
        rope_text(*final(r)) == removed(rope_text(*old(r)), a as int, b as int),
{
    r.remove(a..b)
}

/// A rope over a given text.
pub fn rope_of(s: &str) -> (r: ropey::Rope)
    ensures
        rope_text(r) == s@,
{
    rope_from_str(s)
}

/// The whole text of a rope.
pub fn rope_string(r: &ropey::Rope) -> (s: String)
    ensures
        s@ == rope_text(*r),
{
    let n: usize = rope_len(r);
    let s = rope_slice(r, 0, n);
    assert(s@ =~= rope_text(*r));
    s
}

/// Character count of a buffer line without its trailing `\n` or `\r\n`.
/// Lines that do not exist have none.
pub fn line_char_len(rope: &ropey::Rope, line: usize) -> (n: usize)
    ensures
        n == line_len(rope_text(*rope), line as int),
{
    let ghost t = rope_text(*rope);
    let count: usize = rope_len_lines(rope);
    if line >= count {
        return 0;
    }
    proof {
        lemma_line_start(t, line as int);
    }
    let start: usize = rope_line_to_char(rope, line);
    let stop: usize = rope_line_to_char(rope, line + 1);
    let mut end: usize = stop - start;
    if end == 0 {
        return 0;
    }
    let total: usize = rope_len(rope);
    let ghost line_chars = line_full(t, line as int);
    assert(line_chars[end - 1] == t[start + end - 1]);
    if rope_char(rope, start + (end - 1)) == '\n' {
        end = end - 1;
        if end > 0 {
            assert(line_chars[end - 1] == t[start + end - 1]);
            if rope_char(rope, start + (end - 1)) == '\r' {
                end = end - 1;
            }
        }
    }
    end
}

/// The text of a buffer line without its trailing `\n` or `\r\n`.
pub fn line_text(rope: &ropey::Rope, line: usize) -> (s: String)
    requires
        line < line_count(rope_text(*rope)),
    ensures
        s@ == line_content(rope_text(*rope), line as int),
{
    let ghost t = rope_text(*rope);
    proof {
        lemma_line_len(t, line as int);
    }
    let start: usize = rope_line_to_char(rope, line);
    let n: usize = line_char_len(rope, line);
    let total: usize = rope_len(rope);
    rope_slice(rope, start, start + n)
}

/// A break at the very end opens one more, empty, line.
pub proof fn text_has_a_line(t: Seq<char>)
    ensures
        line_count(t) >= 1,
        t.len() == 0 ==> line_count(t) == 1,
{
}

} // verus!
