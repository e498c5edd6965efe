//! Editing at the cursor: typing, new lines, tabs and deletion.

use vstd::prelude::*;

use crate::buffers;
use crate::buffers::{put_active, take_active, BufferEdits, EditsView};
use crate::columns;
use crate::columns::{
    char_to_cursor, clusters, cursor_to_char, grapheme_col_to_char, line_grapheme_len, Cursor,
};
use crate::edits;
use crate::edits::{bump, bump_u64, BufferView, EditedBuffer, OpView};
use crate::store::SyntaxStates;
use crate::tabs::{Tab, TabView, Tabs, TabsView};
use crate::text;
use crate::text::{
    line_text, rope_clone, rope_insert, rope_insert_char, rope_len, rope_len_lines,
    rope_line_to_char, rope_remove, rope_slice,
};
use crate::truth;
use crate::undo;

verus! {

/// Columns between tab stops.
pub const TAB_STOP: usize = 4;

/// A tab with its cursor elsewhere.
pub open spec fn at_cursor(t: TabView, c: Cursor) -> TabView {
    TabView { cursor: c, ..t }
}

/// A buffer after one recorded edit.
pub open spec fn edited(
    b: BufferView,
    clock: u64,
    new_text: Seq<char>,
    ops: Seq<OpView>,
    before: Cursor,
    after: Cursor,
) -> BufferView {
    BufferView {
        history: edits::recorded(b.history, edits::bumped(clock), ops, before, after, None),
        ..edits::retexted(b, new_text)
    }
}

// ---------------------------------------------------------------------
// Typing
// ---------------------------------------------------------------------

/// A character typed at the cursor. Preview tabs are for looking only.
pub open spec fn char_typed(t: TabView, b: BufferView, clock: u64, ch: char) -> (TabView, BufferView, u64) {
    if t.preview {
        (t, b, clock)
    } else {
        let i = columns::cursor_index(b.text, t.cursor);
        let new_text = text::inserted(b.text, i, seq![ch]);
        let after = columns::index_cursor(new_text, i + 1);
        let seq = edits::bumped(clock);
        (
            at_cursor(t, after),
            BufferView {
                history: edits::typed(b.history, seq, i, ch, t.cursor, after),
                ..edits::retexted(b, new_text)
            },
            seq,
        )
    }
}

fn type_char(tab: &mut Tab, eb: &mut EditedBuffer, clock: &mut u64, ch: char)
    ensures
        (final(tab)@, final(eb)@, *final(clock)) == char_typed(old(tab)@, old(eb)@, *old(clock), ch),
        truth::truthful(old(eb)@) ==> truth::truthful(final(eb)@),
{
    if tab.preview {
        return;
    }
    let before = tab.cursor;
    let i: usize = cursor_to_char(&tab.cursor, &eb.rope);
    let mut rope = rope_clone(&eb.rope);
    rope_insert_char(&mut rope, i, ch);
    let total: usize = rope_len(&rope);
    let after = char_to_cursor(i + 1, &rope);
    bump(eb, rope);
    tab.cursor = after;
    let seq: u64 = bump_u64(*clock);
    *clock = seq;
    eb.history.record_insert_char(seq, i, ch, before, after);
    proof {
        if truth::truthful(old(eb)@) {
            truth::typing_keeps_truth(
                old(eb)@.history,
                old(eb)@.text,
                seq,
                i as int,
                ch,
                before,
                after,
            );
        }
    }
}

/// Typing a character into the active tab.
pub open spec fn typing(ch: char) -> buffers::Change {
    |t: TabView, b: BufferView, c: u64| char_typed(t, b, c, ch)
}

/// Types a character at the cursor of the active tab.
pub fn insert_char(tabs: &mut Tabs, edits: &mut BufferEdits, ch: char)
    ensures
        (final(tabs)@, final(edits)@) == buffers::with_active(old(tabs)@, old(edits)@, typing(ch)),
        truth::all_truthful(old(edits)@) ==> truth::all_truthful(final(edits)@),
{
    let ghost e0 = edits@;
    match take_active(tabs, edits) {
        None => {},
        Some((i, tab, eb)) => {
            let mut tab = tab;
            let mut eb = eb;
            let path = tab.path.text.clone();
            let mut clock: u64 = edits.clock;
            type_char(&mut tab, &mut eb, &mut clock, ch);
            put_active(tabs, edits, i, path, tab, eb, clock);
            proof {
                buffers::lemma_take_put(e0, path@, eb@, clock);
                truth::lemma_kept(e0, path@, eb@, clock);
            }
        },
    }
}

// ---------------------------------------------------------------------
// New lines
// ---------------------------------------------------------------------

/// The number of blanks that a line starts with.
pub open spec fn indent_len(line: Seq<char>) -> int
    decreases line.len(),
{
    if line.len() > 0 && (line[0] == ' ' || line[0] == '\t') {
        1 + indent_len(line.skip(1))
    } else {
        0
    }
}

pub proof fn lemma_indent_len(line: Seq<char>)
    ensures
        0 <= indent_len(line) <= line.len(),
        forall|i: int| 0 <= i < indent_len(line) ==> line[i] == ' ' || line[i] == '\t',
        indent_len(line) < line.len() ==> line[indent_len(line)] != ' ' && line[indent_len(line)]
            != '\t',
    decreases line.len(),
{
    if line.len() > 0 && (line[0] == ' ' || line[0] == '\t') {
        lemma_indent_len(line.skip(1));
        assert forall|i: int| 0 <= i < indent_len(line) implies line[i] == ' ' || line[i]
            == '\t' by {
            if i > 0 {
                assert(line[i] == line.skip(1)[i - 1]);
            }
        }
    }
}

/// A count of leading blanks is the indentation when the next character is
/// none.
pub proof fn lemma_indent_is(line: Seq<char>, n: int)
    requires
        0 <= n <= line.len(),
        forall|i: int| 0 <= i < n ==> line[i] == ' ' || line[i] == '\t',
        n < line.len() ==> line[n] != ' ' && line[n] != '\t',
    ensures
        indent_len(line) == n,
{
    lemma_indent_len(line);
    if indent_len(line) < n {
        assert(line[indent_len(line)] != ' ');
    }
    if n < indent_len(line) {
        assert(line[n] != ' ');
    }
}

/// The indentation of the line that the cursor is on.
pub open spec fn own_indent(t: Seq<char>, line: int) -> Seq<char> {
    let content = text::line_content(t, line);
    content.subrange(0, indent_len(content))
}

/// A line broken at the cursor. The new line starts with the suggested
/// indentation, or else with that of the line that was broken.
pub open spec fn line_broken(
    t: TabView,
    b: BufferView,
    clock: u64,
    suggested: Option<Seq<char>>,
) -> (TabView, BufferView, u64) {
    if t.preview {
        (t, b, clock)
    } else {
        let i = columns::cursor_index(b.text, t.cursor);
        let line = columns::clamped_line(b.text, t.cursor.line as int);
        let indent = match suggested {
            Some(s) => s,
            None => own_indent(b.text, line),
        };
        let put = seq!['\n'] + indent;
        let width = columns::graphemes_of(indent).len() as usize;
        let after = Cursor { line: (line + 1) as usize, col: width, preferred_col: width };
        (
            at_cursor(t, after),
            edited(
                b,
                clock,
                text::inserted(b.text, i, put),
                seq![OpView::Insert { at: i, text: put }],
                t.cursor,
                after,
            ),
            edits::bumped(clock),
        )
    }
}

/// The indentation of a buffer line.
fn line_indent(rope: &ropey::Rope, line: usize) -> (s: String)
    requires
        line < text::line_count(text::rope_text(*rope)),
    ensures
        s@ == own_indent(text::rope_text(*rope), line as int),
        s@.len() == indent_len(text::line_content(text::rope_text(*rope), line as int)),
        s@.len() <= text::line_len(text::rope_text(*rope), line as int),
{
    let content = line_text(rope, line);
    let ghost c = content@;
    let n: usize = content.as_str().unicode_len();
    let mut k: usize = 0;
    while k < n && (content.as_str().get_char(k) == ' ' || content.as_str().get_char(k) == '\t')
        invariant
            k <= n,
            n == content@.len(),
            forall|i: int| 0 <= i < k ==> content@[i] == ' ' || content@[i] == '\t',
        decreases n - k,
    {
        k = k + 1;
    }
    proof {
        lemma_indent_is(c, k as int);
        text::lemma_line_len(text::rope_text(*rope), line as int);
    }
    crate::chars::substring(content.as_str(), 0, k)
}

/// The line a cursor stands on, pulled into the text.
pub fn cursor_line(c: &Cursor, rope: &ropey::Rope) -> (line: usize)
    ensures
        line == columns::clamped_line(text::rope_text(*rope), c.line as int),
        line < text::line_count(text::rope_text(*rope)),
{
    let count: usize = rope_len_lines(rope);
    if c.line < count {
        c.line
    } else {
        count - 1
    }
}

fn break_line(tab: &mut Tab, eb: &mut EditedBuffer, clock: &mut u64, suggested: Option<String>)
    ensures
        (final(tab)@, final(eb)@, *final(clock)) == line_broken(
            old(tab)@,
            old(eb)@,
            *old(clock),
            match suggested {
                Some(s) => Some(s@),
                None => None,
            },
        ),
        truth::truthful(old(eb)@) ==> truth::truthful(final(eb)@),
{
    if tab.preview {
        return;
    }
    let before = tab.cursor;
    let count: usize = rope_len_lines(&eb.rope);
    let line: usize = cursor_line(&tab.cursor, &eb.rope);
    let indent: String = match suggested {
        Some(s) => s,
        None => line_indent(&eb.rope, line),
    };
    let width: usize = clusters(indent.as_str()).len();
    let mut put = String::new();
    put.push('\n');
    put.push_str(indent.as_str());
    assert(put@ =~= seq!['\n'] + indent@);
    let i: usize = cursor_to_char(&tab.cursor, &eb.rope);
    let mut rope = rope_clone(&eb.rope);
    rope_insert(&mut rope, i, put.as_str());
    bump(eb, rope);
    let after = Cursor { line: line + 1, col: width, preferred_col: width };
    let seq: u64 = bump_u64(*clock);
    *clock = seq;
    eb.history.record_insert(seq, i, put, before, after);
    tab.cursor = after;
    proof {
        if truth::truthful(old(eb)@) {
            truth::lemma_insertion(
                old(eb)@.history,
                old(eb)@.text,
                seq,
                i as int,
                put@,
                before,
                after,
            );
        }
    }
}

pub open spec fn breaking(syntax: SyntaxStates) -> buffers::Change {
    |t: TabView, b: BufferView, c: u64|
        line_broken(
            t,
            b,
            c,
            syntax.indent(t.path, columns::clamped_line(b.text, t.cursor.line as int)),
        )
}

/// Breaks the line at the cursor of the active tab.
pub fn insert_newline(tabs: &mut Tabs, edits: &mut BufferEdits, syntax: &SyntaxStates)
    ensures
        (final(tabs)@, final(edits)@) == buffers::with_active(
            old(tabs)@,
            old(edits)@,
            breaking(*syntax),
        ),
        truth::all_truthful(old(edits)@) ==> truth::all_truthful(final(edits)@),
{
    let ghost e0 = edits@;
    match take_active(tabs, edits) {
        None => {},
        Some((i, tab, eb)) => {
            let mut tab = tab;
            let mut eb = eb;
            let path = tab.path.text.clone();
            let mut clock: u64 = edits.clock;
            let line: usize = cursor_line(&tab.cursor, &eb.rope);
            let suggested = syntax.suggest_indent(path.as_str(), line);
            break_line(&mut tab, &mut eb, &mut clock, suggested);
            put_active(tabs, edits, i, path, tab, eb, clock);
            proof {
                buffers::lemma_take_put(e0, path@, eb@, clock);
                truth::lemma_kept(e0, path@, eb@, clock);
            }
        },
    }
}

// ---------------------------------------------------------------------
// Tabs
// ---------------------------------------------------------------------

/// The next tab stop after a column.
pub open spec fn next_stop(col: int) -> int {
    let stop = (col / (TAB_STOP as int) + 1) * TAB_STOP;
    if stop <= usize::MAX {
        stop
    } else {
        usize::MAX as int
    }
}

/// `n` spaces.
pub open spec fn spaces(n: int) -> Seq<char> {
    Seq::new(n as nat, |i: int| ' ')
}

/// The tab key. With a suggested indentation the blanks at the start of
/// the line are replaced by it, or, if they are right already, the cursor
/// is moved behind them. Without one, spaces up to the next tab stop are
/// inserted at the cursor.
pub open spec fn tabbed(
    t: TabView,
    b: BufferView,
    clock: u64,
    suggested: Option<Seq<char>>,
) -> (TabView, BufferView, u64) {
    let line = columns::clamped_line(b.text, t.cursor.line as int);
    let start = text::line_start(b.text, line);
    let existing = own_indent(b.text, line);
    if t.preview {
        (t, b, clock)
    } else {
        match suggested {
            Some(target) => if target == existing {
                if t.cursor.col < existing.len() {
                    let n = existing.len() as usize;
                    (at_cursor(t, Cursor { col: n, preferred_col: n, ..t.cursor }), b, clock)
                } else {
                    (t, b, clock)
                }
            } else {
                let n = target.len() as usize;
                let after = Cursor { col: n, preferred_col: n, ..t.cursor };
                (
                    at_cursor(t, after),
                    edited(
                        b,
                        clock,
                        text::inserted(
                            text::removed(b.text, start, start + existing.len()),
                            start,
                            target,
                        ),
                        edits::replace_ops(start, existing, target),
                        t.cursor,
                        after,
                    ),
                    edits::bumped(clock),
                )
            },
            None => {
                let i = columns::cursor_index(b.text, t.cursor);
                let stop = next_stop(t.cursor.col as int) as usize;
                let put = spaces(stop - t.cursor.col);
                let after = Cursor { col: stop, preferred_col: stop, ..t.cursor };
                (
                    at_cursor(t, after),
                    edited(
                        b,
                        clock,
                        text::inserted(b.text, i, put),
                        seq![OpView::Insert { at: i, text: put }],
                        t.cursor,
                        after,
                    ),
                    edits::bumped(clock),
                )
            },
        }
    }
}

fn repeat_space(n: usize) -> (s: String)
    ensures
        s@ == spaces(n as int),
{
    let mut s = String::new();
    let mut i: usize = 0;
    while i < n
        invariant
            i <= n,
            s@ == spaces(i as int),
        decreases n - i,
    {
        s.push(' ');
        i = i + 1;
        assert(s@ =~= spaces(i as int));
    }
    s
}

fn tab_key(tab: &mut Tab, eb: &mut EditedBuffer, clock: &mut u64, suggested: Option<String>)
    ensures
        (final(tab)@, final(eb)@, *final(clock)) == tabbed(
            old(tab)@,
            old(eb)@,
            *old(clock),
            match suggested {
                Some(s) => Some(s@),
                None => None,
            },
        ),
        truth::truthful(old(eb)@) ==> truth::truthful(final(eb)@),
{
    if tab.preview {
        return;
    }
    let ghost t = text::rope_text(eb.rope);
    let line: usize = cursor_line(&tab.cursor, &eb.rope);
    let before = tab.cursor;
    match suggested {
        Some(target) => {
            let existing = line_indent(&eb.rope, line);
            let n: usize = existing.as_str().unicode_len();
            if crate::chars::same_text(target.as_str(), existing.as_str()) {
                if tab.cursor.col < n {
                    tab.cursor.col = n;
                    tab.cursor.preferred_col = n;
                }
                return;
            }
            let start: usize = rope_line_to_char(&eb.rope, line);
            proof {
                text::lemma_line_len(t, line as int);
            }
            let total: usize = rope_len(&eb.rope);
            let mut rope = rope_clone(&eb.rope);
            if n > 0 {
                rope_remove(&mut rope, start, start + n);
            } else {
                assert(text::removed(t, start as int, start as int) =~= t);
            }
            rope_insert(&mut rope, start, target.as_str());
            bump(eb, rope);
            let width: usize = target.as_str().unicode_len();
            tab.cursor.col = width;
            tab.cursor.preferred_col = width;
            let after = tab.cursor;
            let seq: u64 = bump_u64(*clock);
            *clock = seq;
            eb.history.record_replace(seq, start, existing, target, before, after, None);
            proof {
                assert(existing@ =~= t.subrange(start as int, start + n));
                if truth::truthful(old(eb)@) {
                    truth::lemma_replacement(
                        old(eb)@.history,
                        t,
                        seq,
                        start as int,
                        n as int,
                        target@,
                        before,
                        after,
                        None,
                    );
                }
            }
        },
        None => {
            let col: usize = tab.cursor.col;
            let pad: usize = TAB_STOP - col % TAB_STOP;
            let stop: usize = col.saturating_add(pad);
            let put = repeat_space(stop - col);
            let i: usize = cursor_to_char(&tab.cursor, &eb.rope);
            let mut rope = rope_clone(&eb.rope);
            rope_insert(&mut rope, i, put.as_str());
            bump(eb, rope);
            tab.cursor.col = stop;
            tab.cursor.preferred_col = stop;
            let after = tab.cursor;
            let seq: u64 = bump_u64(*clock);
            *clock = seq;
            eb.history.record_insert(seq, i, put, before, after);
            proof {
                if truth::truthful(old(eb)@) {
                    truth::lemma_insertion(
                        old(eb)@.history,
                        t,
                        seq,
                        i as int,
                        put@,
                        before,
                        after,
                    );
                }
            }
        },
    }
}

pub open spec fn tabbing(syntax: SyntaxStates) -> buffers::Change {
    |t: TabView, b: BufferView, c: u64|
        tabbed(
            t,
            b,
            c,
            syntax.indent(t.path, columns::clamped_line(b.text, t.cursor.line as int)),
        )
}

/// The tab key in the active tab.
pub fn insert_tab(tabs: &mut Tabs, edits: &mut BufferEdits, syntax: &SyntaxStates)
    ensures
        (final(tabs)@, final(edits)@) == buffers::with_active(
            old(tabs)@,
            old(edits)@,
            tabbing(*syntax),
        ),
        truth::all_truthful(old(edits)@) ==> truth::all_truthful(final(edits)@),
{
    let ghost e0 = edits@;
    match take_active(tabs, edits) {
        None => {},
        Some((i, tab, eb)) => {
            let mut tab = tab;
            let mut eb = eb;
            let path = tab.path.text.clone();
            let mut clock: u64 = edits.clock;
            let line: usize = cursor_line(&tab.cursor, &eb.rope);
            let suggested = syntax.suggest_indent(path.as_str(), line);
            tab_key(&mut tab, &mut eb, &mut clock, suggested);
            put_active(tabs, edits, i, path, tab, eb, clock);
            proof {
                buffers::lemma_take_put(e0, path@, eb@, clock);
                truth::lemma_kept(e0, path@, eb@, clock);
            }
        },
    }
}

// ---------------------------------------------------------------------
// Deletion
// ---------------------------------------------------------------------

/// What backspace deletes: the cluster before the cursor, or at the start
/// of a line the last character of the line before. Nothing at the start
/// of the text.
pub open spec fn back_range(t: Seq<char>, c: Cursor) -> Option<(int, int)> {
    let line = columns::clamped_line(t, c.line as int);
    let start = text::line_start(t, line);
    let g = columns::line_cols(t, line);
    if c.col > 0 {
        Some((start + columns::col_offset(g, c.col - 1), start + columns::col_offset(g, c.col as int)))
    } else if line > 0 {
        Some((start - 1, start))
    } else {
        None
    }
}

/// What delete deletes: the cluster at the cursor, or at the end of a line
/// the last character of its break. Nothing at the end of the text.
pub open spec fn forward_range(t: Seq<char>, c: Cursor) -> Option<(int, int)> {
    let line = columns::clamped_line(t, c.line as int);
    let start = text::line_start(t, line);
    let g = columns::line_cols(t, line);
    if c.col < g.len() {
        Some((start + columns::col_offset(g, c.col as int), start + columns::col_offset(g, c.col + 1)))
    } else if line + 1 < text::line_count(t) {
        Some((text::line_end(t, line) - 1, text::line_end(t, line)))
    } else {
        None
    }
}

/// A range deleted, the cursor left where it was.
pub open spec fn range_deleted(
    t: TabView,
    b: BufferView,
    clock: u64,
    range: Option<(int, int)>,
) -> (TabView, BufferView, u64) {
    match range {
        None => (t, b, clock),
        Some((from, to)) => if t.preview {
            (t, b, clock)
        } else {
            let new_text = text::removed(b.text, from, to);
            let after = columns::index_cursor(new_text, from);
            (
                at_cursor(t, after),
                edited(
                    b,
                    clock,
                    new_text,
                    seq![OpView::Delete { at: from, text: b.text.subrange(from, to) }],
                    t.cursor,
                    after,
                ),
                edits::bumped(clock),
            )
        },
    }
}

pub open spec fn deleting_back() -> buffers::Change {
    |t: TabView, b: BufferView, c: u64| range_deleted(t, b, c, back_range(b.text, t.cursor))
}

pub open spec fn deleting_forward() -> buffers::Change {
    |t: TabView, b: BufferView, c: u64| range_deleted(t, b, c, forward_range(b.text, t.cursor))
}

/// A line that has one before it starts behind a break.
pub proof fn lemma_later_line_start(t: Seq<char>, line: int)
    requires
        0 < line < text::line_count(t),
    ensures
        text::line_start(t, line - 1) < text::line_start(t, line) <= t.len(),
{
    text::lemma_line_start(t, line - 1);
    text::lemma_line_start_breaks(t, line);
    text::lemma_line_start_breaks(t, line - 1);
    if text::line_start(t, line) == text::line_start(t, line - 1) {
        assert(false);
    }
}

/// The range that backspace deletes lies in the text.
pub fn find_back_range(rope: &ropey::Rope, c: &Cursor) -> (r: Option<(usize, usize)>)
    ensures
        r is Some <==> back_range(text::rope_text(*rope), *c) is Some,
        r is Some ==> (r->0).0 == (back_range(text::rope_text(*rope), *c)->0).0 && (r->0).1 == (
        back_range(text::rope_text(*rope), *c)->0).1 && (r->0).0 <= (r->0).1
            <= text::rope_text(*rope).len(),
{
    let ghost t = text::rope_text(*rope);
    let line: usize = cursor_line(c, rope);
    let start: usize = rope_line_to_char(rope, line);
    let total: usize = rope_len(rope);
    proof {
        text::lemma_line_len(t, line as int);
    }
    if c.col > 0 {
        let a: usize = grapheme_col_to_char(rope, line, c.col - 1);
        let b: usize = grapheme_col_to_char(rope, line, c.col);
        proof {
            let g = columns::line_cols(t, line as int);
            if c.col < g.len() {
                columns::lemma_cluster_chars(g, c.col - 1, c.col as int);
            } else if c.col - 1 < g.len() {
                columns::lemma_cluster_chars(g, c.col - 1, g.len() as int);
            }
        }
        Some((start + a, start + b))
    } else if line > 0 {
        proof {
            lemma_later_line_start(t, line as int);
            text::lemma_line_start(t, line - 1);
        }
        Some((start - 1, start))
    } else {
        None
    }
}

/// The range that delete deletes lies in the text.
pub fn find_forward_range(rope: &ropey::Rope, c: &Cursor) -> (r: Option<(usize, usize)>)
    ensures
        r is Some <==> forward_range(text::rope_text(*rope), *c) is Some,
        r is Some ==> (r->0).0 == (forward_range(text::rope_text(*rope), *c)->0).0 && (r->0).1 == (
        forward_range(text::rope_text(*rope), *c)->0).1 && (r->0).0 <= (r->0).1
            <= text::rope_text(*rope).len(),
{
    let ghost t = text::rope_text(*rope);
    let count: usize = rope_len_lines(rope);
    let line: usize = cursor_line(c, rope);
    let start: usize = rope_line_to_char(rope, line);
    let total: usize = rope_len(rope);
    let cols: usize = line_grapheme_len(rope, line);
    proof {
        text::lemma_line_len(t, line as int);
        text::lemma_line_start(t, line as int);
    }
    if c.col < cols {
        let a: usize = grapheme_col_to_char(rope, line, c.col);
        let b: usize = grapheme_col_to_char(rope, line, c.col + 1);
        proof {
            let g = columns::line_cols(t, line as int);
            columns::lemma_cluster_chars(g, c.col as int, c.col + 1);
        }
        Some((start + a, start + b))
    } else if line < count - 1 {
        let end: usize = rope_line_to_char(rope, line + 1);
        proof {
            lemma_later_line_start(t, line + 1);
        }
        Some((end - 1, end))
    } else {
        None
    }
}

fn delete_range(tab: &mut Tab, eb: &mut EditedBuffer, clock: &mut u64, range: Option<(usize, usize)>)
    requires
        range is Some ==> (range->0).0 <= (range->0).1 <= old(eb)@.text.len(),
    ensures
        (final(tab)@, final(eb)@, *final(clock)) == range_deleted(
            old(tab)@,
            old(eb)@,
            *old(clock),
            match range {
                Some(r) => Some((r.0 as int, r.1 as int)),
                None => None,
            },
        ),
        truth::truthful(old(eb)@) ==> truth::truthful(final(eb)@),
{
    match range {
        None => {},
        Some((from, to)) => {
            if tab.preview {
                return;
            }
            let before = tab.cursor;
            let gone = rope_slice(&eb.rope, from, to);
            let mut rope = rope_clone(&eb.rope);
            rope_remove(&mut rope, from, to);
            let after = char_to_cursor(from, &rope);
            bump(eb, rope);
            tab.cursor = after;
            let seq: u64 = bump_u64(*clock);
            *clock = seq;
            eb.history.record_delete(seq, from, gone, before, after);
            proof {
                if truth::truthful(old(eb)@) {
                    truth::lemma_deletion(
                        old(eb)@.history,
                        old(eb)@.text,
                        seq,
                        from as int,
                        to as int,
                        before,
                        after,
                    );
                }
            }
        },
    }
}

/// Backspace in the active tab.
pub fn delete_back(tabs: &mut Tabs, edits: &mut BufferEdits)
    ensures
        (final(tabs)@, final(edits)@) == buffers::with_active(
            old(tabs)@,
            old(edits)@,
            deleting_back(),
        ),
        truth::all_truthful(old(edits)@) ==> truth::all_truthful(final(edits)@),
{
    let ghost e0 = edits@;
    match take_active(tabs, edits) {
        None => {},
        Some((i, tab, eb)) => {
            let mut tab = tab;
            let mut eb = eb;
            let path = tab.path.text.clone();
            let mut clock: u64 = edits.clock;
            let range = find_back_range(&eb.rope, &tab.cursor);
            delete_range(&mut tab, &mut eb, &mut clock, range);
            put_active(tabs, edits, i, path, tab, eb, clock);
            proof {
                buffers::lemma_take_put(e0, path@, eb@, clock);
                truth::lemma_kept(e0, path@, eb@, clock);
            }
        },
    }
}

/// Delete in the active tab.
pub fn delete_forward(tabs: &mut Tabs, edits: &mut BufferEdits)
    ensures
        (final(tabs)@, final(edits)@) == buffers::with_active(
            old(tabs)@,
            old(edits)@,
            deleting_forward(),
        ),
        truth::all_truthful(old(edits)@) ==> truth::all_truthful(final(edits)@),
{
    let ghost e0 = edits@;
    match take_active(tabs, edits) {
        None => {},
        Some((i, tab, eb)) => {
            let mut tab = tab;
            let mut eb = eb;
            let path = tab.path.text.clone();
            let mut clock: u64 = edits.clock;
            let range = find_forward_range(&eb.rope, &tab.cursor);
            delete_range(&mut tab, &mut eb, &mut clock, range);
            put_active(tabs, edits, i, path, tab, eb, clock);
            proof {
                buffers::lemma_take_put(e0, path@, eb@, clock);
                truth::lemma_kept(e0, path@, eb@, clock);
            }
        },
    }
}

// ---------------------------------------------------------------------
// Laws
// ---------------------------------------------------------------------

/// A character typed comes to stand at the cursor, the cursor behind it;
/// nothing else changes, and an undo takes it back.
pub proof fn typing_puts_the_character_at_the_cursor(t: TabsView, e: EditsView, ch: char, i: int)
    requires
        buffers::active_loaded(t, e) == Some(i),
    ensures
        ({
            let (t2, e2) = buffers::with_active(t, e, typing(ch));
            let tab = t.open[i];
            let b = e.buffers[tab.path];
            let b2 = e2.buffers[tab.path];
            let p = columns::cursor_index(b.text, tab.cursor);
            &&& buffers::only_there(t, e, t2, e2, i)
            &&& tab.preview ==> t2.open[i] == tab && b2 == b
            &&& !tab.preview ==> {
                &&& b2.text == b.text.subrange(0, p) + seq![ch] + b.text.subrange(
                    p,
                    b.text.len() as int,
                )
                &&& t2.open[i] == (TabView {
                    cursor: columns::index_cursor(b2.text, p + 1),
                    ..tab
                })
                &&& b2.version == edits::bumped(b.version)
                &&& b2.saved_version == b.saved_version
                &&& b2.history.future.len() == 0
                &&& b.history.open is None && 0 <= p <= b.text.len() ==> undo::buffer_undone(
                    b2,
                ).text == b.text
            }
        }),
{
    buffers::a_change_is_made_in_the_active_tab(t, e, typing(ch));
    let tab = t.open[i];
    let b = e.buffers[tab.path];
    let b2 = buffers::with_active(t, e, typing(ch)).1.buffers[tab.path];
    let p = columns::cursor_index(b.text, tab.cursor);
    if !tab.preview && b.history.open is None && 0 <= p <= b.text.len() {
        let h = b2.history;
        let f = edits::finalised(h);
        let n = f.past.len() as int;
        let op = OpView::Insert { at: p, text: seq![ch] };
        assert(f.past[n - 1].ops == seq![op]);
        assert(edits::last_real(f.past, n) == Some(n - 1));
        edits::lemma_one_op(b.text, op);
        edits::inverting_ops_undoes_them(b.text, seq![op], 0);
    }
}

/// A new line is put in at the cursor, with the indentation that was
/// suggested, or else with just the blanks that the broken line starts with;
/// the cursor stands behind them on the new line.
pub proof fn breaking_a_line_keeps_its_indentation(t: TabsView, e: EditsView, syntax: SyntaxStates, i: int)
    requires
        buffers::active_loaded(t, e) == Some(i),
        !t.open[i].preview,
        t.open[i].cursor.line < text::line_count(e.buffers[t.open[i].path].text) < usize::MAX,
    ensures
        ({
            let (t2, e2) = buffers::with_active(t, e, breaking(syntax));
            let tab = t.open[i];
            let b = e.buffers[tab.path];
            let b2 = e2.buffers[tab.path];
            let p = columns::cursor_index(b.text, tab.cursor);
            let content = text::line_content(b.text, tab.cursor.line as int);
            let wanted = syntax.indent(tab.path, tab.cursor.line as int);
            &&& buffers::only_there(t, e, t2, e2, i)
            &&& exists|indent: Seq<char>|
                {
                    &&& b2.text == #[trigger] with_break(b.text, p, indent)
                    &&& wanted is Some ==> indent == wanted->0
                    &&& wanted is None ==> leading_blanks(content, indent)
                    &&& t2.open[i].cursor.line == tab.cursor.line + 1
                    &&& t2.open[i].cursor.col == columns::graphemes_of(indent).len() as usize
                }
            &&& t2.open[i] == (TabView { cursor: t2.open[i].cursor, ..tab })
            &&& 0 <= p <= b.text.len() ==> undo::buffer_undone(b2).text == b.text
        }),
{
    buffers::a_change_is_made_in_the_active_tab(t, e, breaking(syntax));
    let tab = t.open[i];
    let b = e.buffers[tab.path];
    let line = tab.cursor.line as int;
    let content = text::line_content(b.text, line);
    let wanted = syntax.indent(tab.path, line);
    let p = columns::cursor_index(b.text, tab.cursor);
    let indent = match wanted {
        Some(s) => s,
        None => own_indent(b.text, line),
    };
    lemma_indent_len(content);
    let b2 = buffers::with_active(t, e, breaking(syntax)).1.buffers[tab.path];
    assert(b2.text =~= with_break(b.text, p, indent));
    if 0 <= p <= b.text.len() {
        let op = OpView::Insert { at: p, text: seq!['\n'] + indent };
        edits::lemma_one_op(b.text, op);
        undo::undo_takes_back_a_recorded_edit(
            b,
            edits::bumped(e.clock),
            seq![op],
            tab.cursor,
            buffers::with_active(t, e, breaking(syntax)).0.open[i].cursor,
        );
    }
}

/// A text with a line feed and an indentation put in at `p`.
pub open spec fn with_break(t: Seq<char>, p: int, indent: Seq<char>) -> Seq<char> {
    t.subrange(0, p) + (seq!['\n'] + indent) + t.subrange(p, t.len() as int)
}

/// All the blanks that a line starts with, and no more.
pub open spec fn leading_blanks(line: Seq<char>, x: Seq<char>) -> bool {
    &&& x.len() <= line.len()
    &&& x == line.subrange(0, x.len() as int)
    &&& forall|k: int| 0 <= k < x.len() ==> line[k] == ' ' || line[k] == '\t'
    &&& x.len() < line.len() ==> line[x.len() as int] != ' ' && line[x.len() as int] != '\t'
}

/// Without a suggestion the tab key puts in spaces at the cursor, at least
/// one and no more than lead to the next multiple of four columns.
pub proof fn tab_goes_to_the_next_stop(t: TabsView, e: EditsView, syntax: SyntaxStates, i: int)
    requires
        buffers::active_loaded(t, e) == Some(i),
        !t.open[i].preview,
        t.open[i].cursor.line < text::line_count(e.buffers[t.open[i].path].text),
        t.open[i].cursor.col < usize::MAX - 4,
        syntax.indent(t.open[i].path, t.open[i].cursor.line as int) is None,
    ensures
        ({
            let (t2, e2) = buffers::with_active(t, e, tabbing(syntax));
            let tab = t.open[i];
            let b = e.buffers[tab.path];
            let b2 = e2.buffers[tab.path];
            let p = columns::cursor_index(b.text, tab.cursor);
            let n = t2.open[i].cursor.col - tab.cursor.col;
            &&& buffers::only_there(t, e, t2, e2, i)
            &&& 1 <= n <= 4
            &&& t2.open[i].cursor.col % 4 == 0
            &&& t2.open[i].cursor.line == tab.cursor.line
            &&& t2.open[i] == (TabView { cursor: t2.open[i].cursor, ..tab })
            &&& b2.text == b.text.subrange(0, p) + Seq::new(n as nat, |k: int| ' ')
                + b.text.subrange(p, b.text.len() as int)
        }),
{
    buffers::a_change_is_made_in_the_active_tab(t, e, tabbing(syntax));
    let tab = t.open[i];
    let b = e.buffers[tab.path];
    let col = tab.cursor.col as int;
    let (t2, e2) = buffers::with_active(t, e, tabbing(syntax));
    let n = t2.open[i].cursor.col - tab.cursor.col;
    assert(spaces(n) =~= Seq::new(n as nat, |k: int| ' '));
}

/// With a suggestion the tab key gives the line that indentation: all the
/// blanks at its start go, whatever stands behind them stays. The cursor goes
/// behind the indentation, but not back to it.
pub proof fn tab_takes_the_suggested_indentation(t: TabsView, e: EditsView, syntax: SyntaxStates, i: int)
    requires
        buffers::active_loaded(t, e) == Some(i),
        !t.open[i].preview,
        t.open[i].cursor.line < text::line_count(e.buffers[t.open[i].path].text),
        syntax.indent(t.open[i].path, t.open[i].cursor.line as int) is Some,
    ensures
        ({
            let (t2, e2) = buffers::with_active(t, e, tabbing(syntax));
            let tab = t.open[i];
            let b = e.buffers[tab.path];
            let b2 = e2.buffers[tab.path];
            let line = tab.cursor.line as int;
            let a = text::line_start(b.text, line);
            let content = text::line_content(b.text, line);
            let want = syntax.indent(tab.path, line)->0;
            &&& buffers::only_there(t, e, t2, e2, i)
            &&& exists|old_indent: Seq<char>|
                {
                    &&& #[trigger] leading_blanks(content, old_indent)
                    &&& b2.text == b.text.subrange(0, a) + want + b.text.subrange(
                        a + old_indent.len(),
                        b.text.len() as int,
                    )
                    &&& old_indent == want ==> b2 == b
                    &&& old_indent == want && tab.cursor.col < want.len() ==> t2.open[i].cursor.col
                        == want.len() as usize
                    &&& old_indent == want && tab.cursor.col >= want.len() ==> t2.open[i].cursor
                        == tab.cursor
                    &&& old_indent != want ==> t2.open[i].cursor.col == want.len() as usize
                }
            &&& t2.open[i].cursor.line == tab.cursor.line
        }),
{
    buffers::a_change_is_made_in_the_active_tab(t, e, tabbing(syntax));
    let tab = t.open[i];
    let b = e.buffers[tab.path];
    let line = tab.cursor.line as int;
    let a = text::line_start(b.text, line);
    let content = text::line_content(b.text, line);
    let old_indent = own_indent(b.text, line);
    lemma_indent_len(content);
    text::lemma_line_len(b.text, line);
    assert(leading_blanks(content, old_indent));
    let n = a + old_indent.len();
    assert(b.text.subrange(a, n) =~= old_indent) by {
        assert(content.subrange(0, old_indent.len() as int) =~= b.text.subrange(a, n));
    }
    let want = syntax.indent(tab.path, line)->0;
    let rest = text::removed(b.text, a, n);
    assert(rest.subrange(0, a) =~= b.text.subrange(0, a));
    assert(rest.subrange(a, rest.len() as int) =~= b.text.subrange(n, b.text.len() as int));
    assert(b.text =~= b.text.subrange(0, a) + old_indent + b.text.subrange(n, b.text.len() as int));
}

/// What a deletion leaves: the text without the piece from `a` to `z`, the
/// cursor where that was, and an undo that brings it back.
pub open spec fn gone(
    t: TabsView,
    e: EditsView,
    t2: TabsView,
    e2: EditsView,
    i: int,
    a: int,
    z: int,
) -> bool {
    let tab = t.open[i];
    let b = e.buffers[tab.path];
    let b2 = e2.buffers[tab.path];
    &&& buffers::only_there(t, e, t2, e2, i)
    &&& 0 <= a <= z <= b.text.len()
    &&& b2.text == b.text.subrange(0, a) + b.text.subrange(z, b.text.len() as int)
    &&& t2.open[i] == (TabView { cursor: columns::index_cursor(b2.text, a), ..tab })
    &&& undo::buffer_undone(b2).text == b.text
    &&& b2.version == edits::bumped(b.version)
    &&& b2.saved_version == b.saved_version
}

proof fn lemma_gone(t: TabView, b: BufferView, clock: u64, a: int, z: int)
    requires
        0 <= a <= z <= b.text.len(),
        !t.preview,
    ensures
        undo::buffer_undone(range_deleted(t, b, clock, Some((a, z))).1).text == b.text,
{
    let op = OpView::Delete { at: a, text: b.text.subrange(a, z) };
    edits::lemma_one_op(b.text, op);
    undo::undo_takes_back_a_recorded_edit(
        b,
        edits::bumped(clock),
        seq![op],
        t.cursor,
        columns::index_cursor(text::removed(b.text, a, z), a),
    );
    assert(edits::ops_applied(b.text, seq![op], 1) =~= text::removed(b.text, a, z));
}

/// Backspace deletes the one cluster before the cursor; at the start of a
/// line the last character of the break before it; at the start of the text
/// nothing.
pub proof fn backspace_deletes_what_stands_before(t: TabsView, e: EditsView, i: int)
    requires
        buffers::active_loaded(t, e) == Some(i),
        !t.open[i].preview,
        ({
            let c = t.open[i].cursor;
            let text = e.buffers[t.open[i].path].text;
            &&& c.line < text::line_count(text)
            &&& columns::clustered(text, c.line as int)
            &&& c.col <= columns::col_count(text, c.line as int)
        }),
    ensures
        ({
            let (t2, e2) = buffers::with_active(t, e, deleting_back());
            let tab = t.open[i];
            let c = tab.cursor;
            let text = e.buffers[tab.path].text;
            let p = columns::cursor_index(text, c);
            &&& c.col > 0 ==> {
                let before = columns::line_cols(text, c.line as int)[c.col - 1];
                &&& gone(t, e, t2, e2, i, p - before.len(), p)
                &&& text.subrange(p - before.len(), p) == before
            }
            &&& c.col == 0 && c.line > 0 ==> gone(t, e, t2, e2, i, p - 1, p)
            &&& c.col == 0 && c.line == 0 ==> t2 == t && e2.buffers[tab.path]
                == e.buffers[tab.path]
        }),
{
    buffers::a_change_is_made_in_the_active_tab(t, e, deleting_back());
    let tab = t.open[i];
    let b = e.buffers[tab.path];
    let c = tab.cursor;
    let line = c.line as int;
    let g = columns::line_cols(b.text, line);
    columns::a_column_counts_clusters(b.text, c);
    let p = columns::cursor_index(b.text, c);
    let (t2, e2) = buffers::with_active(t, e, deleting_back());
    if c.col > 0 {
        let c1 = Cursor { col: (c.col - 1) as usize, ..c };
        let q = columns::cursor_index(b.text, c1);
        lemma_next_cluster(b.text, c1);
        lemma_gone(tab, b, e.clock, q, p);
    } else if c.line > 0 {
        lemma_later_line_start(b.text, line);
        text::lemma_line_start(b.text, line - 1);
        lemma_gone(tab, b, e.clock, p - 1, p);
    } else {
        assert(t2.open =~= t.open);
    }
}

/// Delete deletes the one cluster at the cursor; at the end of a line the
/// last character of its break; at the end of the text nothing.
pub proof fn delete_deletes_what_stands_behind(t: TabsView, e: EditsView, i: int)
    requires
        buffers::active_loaded(t, e) == Some(i),
        !t.open[i].preview,
        ({
            let c = t.open[i].cursor;
            let text = e.buffers[t.open[i].path].text;
            &&& c.line < text::line_count(text)
            &&& columns::clustered(text, c.line as int)
            &&& c.col <= columns::col_count(text, c.line as int)
        }),
    ensures
        ({
            let (t2, e2) = buffers::with_active(t, e, deleting_forward());
            let tab = t.open[i];
            let c = tab.cursor;
            let text = e.buffers[tab.path].text;
            let p = columns::cursor_index(text, c);
            let n = columns::col_count(text, c.line as int);
            let stop = text::line_start(text, c.line + 1);
            &&& c.col < n ==> {
                let here = columns::line_cols(text, c.line as int)[c.col as int];
                &&& gone(t, e, t2, e2, i, p, p + here.len())
                &&& text.subrange(p, p + here.len()) == here
            }
            &&& c.col == n && c.line + 1 < text::line_count(text) ==> gone(
                t,
                e,
                t2,
                e2,
                i,
                stop - 1,
                stop,
            )
            &&& c.col == n && c.line + 1 == text::line_count(text) ==> t2 == t
                && e2.buffers[tab.path] == e.buffers[tab.path]
        }),
{
    buffers::a_change_is_made_in_the_active_tab(t, e, deleting_forward());
    let tab = t.open[i];
    let b = e.buffers[tab.path];
    let c = tab.cursor;
    let line = c.line as int;
    let g = columns::line_cols(b.text, line);
    columns::a_column_counts_clusters(b.text, c);
    let p = columns::cursor_index(b.text, c);
    let (t2, e2) = buffers::with_active(t, e, deleting_forward());
    if c.col < g.len() {
        let here = g[c.col as int];
        lemma_next_cluster(b.text, c);
        lemma_gone(tab, b, e.clock, p, p + here.len());
    } else if line + 1 < text::line_count(b.text) {
        lemma_later_line_start(b.text, line + 1);
        lemma_gone(
            tab,
            b,
            e.clock,
            text::line_start(b.text, line + 1) - 1,
            text::line_start(b.text, line + 1),
        );
    } else {
        assert(t2.open =~= t.open);
    }
}

proof fn lemma_next_cluster(t: Seq<char>, c: Cursor)
    requires
        c.line < text::line_count(t),
        columns::clustered(t, c.line as int),
        c.col < columns::col_count(t, c.line as int),
    ensures
        ({
            let g = columns::line_cols(t, c.line as int);
            let here = g[c.col as int];
            let p = columns::cursor_index(t, c);
            &&& text::line_start(t, c.line as int) + columns::col_offset(g, c.col + 1) == p
                + here.len()
            &&& 0 <= p
            &&& p + here.len() <= t.len()
            &&& t.subrange(p, p + here.len()) == here
        }),
{
    let line = c.line as int;
    let g = columns::line_cols(t, line);
    let n = g.len() as int;
    let k = c.col as int;
    let a = text::line_start(t, line);
    let here = g[k];
    text::lemma_line_len(t, line);
    columns::lemma_joined_prefix(g, k, n);
    columns::lemma_joined_prefix(g, k + 1, n);
    columns::lemma_cluster_chars(g, k + 1, n);
    let all = text::line_content(t, line);
    let x = columns::cluster_chars(g, k);
    let y = columns::cluster_chars(g, k + 1);
    assert(all.subrange(0, y).subrange(x, y) =~= here);
    assert(t.subrange(a + x, a + y) =~= all.subrange(0, y).subrange(x, y));
}

} // verus!
