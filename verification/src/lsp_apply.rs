//! What the answers of language servers do.

use vstd::prelude::*;

use crate::alerts;
use crate::alerts::{AlertState, AlertsView};
use crate::browser;
use crate::browser::PathChains;
use crate::buffers;
use crate::buffers::{BufferEdits, EditsView};
use crate::cells;
use crate::cells::{prefix_display_width, CellWidths};
use crate::chars;
use crate::chars::decimal_string;
use crate::columns;
use crate::columns::{char_to_grapheme_col, Cursor};
use crate::edits;
use crate::edits::{bump_u64, push_replace, BufferView, EditOp, EditedBuffer, OpView};
use crate::hits;
use crate::hits::capped_add;
use crate::issues;
use crate::issues::land_at;
use crate::jumps;
use crate::jumps::{current_position, JumpListState, JumpsView};
use crate::listing;
use crate::listing::sorted_members;
use crate::lsp_state::{LspPending, PendingView};
use crate::maps::PathSet;
use crate::paths::CanonPath;
use crate::replace_one;
use crate::save;
use crate::save::apply_save_cleanup;
use crate::screen::Terminal;
use crate::tabs::{Tab, TabView, Tabs, TabsView};
use crate::text;
use crate::text::{
    line_text, rope_clone, rope_insert, rope_len, rope_len_lines, rope_line_to_char, rope_remove,
    rope_slice,
};
use crate::words;
use crate::words::{identifier_start, text_of_cols};
use crate::truth;
use crate::undo;

verus! {

// ---------------------------------------------------------------------
// Completions
// ---------------------------------------------------------------------

/// The first column of the identifier that ends at a column of a line; the
/// column itself where the line is not known.
pub open spec fn identifier_col(e: EditsView, path: Seq<char>, line: int, col: int) -> int {
    if !e.has(path) || line >= text::line_count(e.buffers[path].text) {
        col
    } else {
        let g = columns::line_cols(e.buffers[path].text, line);
        words::word_back(
            g,
            if col <= g.len() {
                col
            } else {
                g.len() as int
            },
        )
    }
}

pub fn identifier_start_col(
    edits: &BufferEdits,
    path: &CanonPath,
    prefix_line: usize,
    cursor_col: usize,
) -> (r: usize)
    ensures
        r == identifier_col(edits@, path@, prefix_line as int, cursor_col as int),
{
    match edits.get(path.as_str()) {
        None => cursor_col,
        Some(eb) => {
            if prefix_line >= rope_len_lines(&eb.rope) {
                cursor_col
            } else {
                identifier_start(&eb.rope, prefix_line, cursor_col)
            }
        },
    }
}

/// What was typed on a line from a column up to that of the cursor.
pub open spec fn prefix_text(
    e: EditsView,
    path: Seq<char>,
    c: Cursor,
    line: int,
    start: int,
) -> Seq<char> {
    if !e.has(path) || line >= text::line_count(e.buffers[path].text) || c.col < start {
        seq![]
    } else {
        words::cols_text(e.buffers[path].text, line, start, c.col as int)
    }
}

pub fn completion_prefix(
    edits: &BufferEdits,
    path: &CanonPath,
    tab: &Tab,
    prefix_line: usize,
    prefix_start_col: usize,
) -> (s: String)
    ensures
        s@ == prefix_text(
            edits@,
            path@,
            tab@.cursor,
            prefix_line as int,
            prefix_start_col as int,
        ),
{
    if let Some(eb) = edits.get(path.as_str()) {
        if prefix_line < rope_len_lines(&eb.rope) && prefix_start_col <= tab.cursor.col {
            return text_of_cols(&eb.rope, prefix_line, prefix_start_col, tab.cursor.col);
        }
    }
    let s = String::new();
    assert(s@ =~= seq![]);
    s
}

// ---------------------------------------------------------------------
// Definitions
// ---------------------------------------------------------------------

/// A place that a server names. The column counts UTF-16 units.
pub struct Location {
    pub path: CanonPath,
    pub line: usize,
    pub col: usize,
}

#[verifier::ext_equal]
pub struct LocationView {
    pub path: Seq<char>,
    pub line: usize,
    pub col: usize,
}

impl View for Location {
    type V = LocationView;

    open spec fn view(&self) -> LocationView {
        LocationView { path: self.path@, line: self.line, col: self.col }
    }
}

pub open spec fn opt_location(l: Option<Location>) -> Option<LocationView> {
    match l {
        Some(x) => Some(x@),
        None => None,
    }
}

/// The UTF-16 units that a character takes.
pub open spec fn units(c: char) -> int {
    if c <= '\u{ffff}' {
        1
    } else {
        2
    }
}

/// How many characters of `s`, from `i` on, fit into `n` units; plus `i`.
pub open spec fn chars_within(s: Seq<char>, i: int, n: int) -> int
    decreases s.len() - i,
{
    if 0 <= i < s.len() && units(s[i]) <= n {
        chars_within(s, i + 1, n - units(s[i]))
    } else {
        i
    }
}

/// The column of a place given in UTF-16 units.
pub open spec fn column_of_units(t: Seq<char>, line: int, n: int) -> int {
    columns::offset_col(
        columns::line_cols(t, line),
        chars_within(text::line_content(t, line), 0, n),
    )
}

fn column_from_units(rope: &ropey::Rope, line: usize, n: usize) -> (col: usize)
    requires
        line < text::line_count(text::rope_text(*rope)),
    ensures
        col == column_of_units(text::rope_text(*rope), line as int, n as int),
{
    let s = line_text(rope, line);
    let len: usize = s.as_str().unicode_len();
    let mut left: usize = n;
    let mut i: usize = 0;
    while i < len
        invariant
            i <= len,
            len == s@.len(),
            s@ == text::line_content(text::rope_text(*rope), line as int),
            chars_within(s@, 0, n as int) == chars_within(s@, i as int, left as int),
        decreases len - i,
    {
        let u: usize = if s.as_str().get_char(i) <= '\u{ffff}' {
            1
        } else {
            2
        };
        if u > left {
            return char_to_grapheme_col(rope, line, i);
        }
        left = left - u;
        i = i + 1;
    }
    char_to_grapheme_col(rope, line, i)
}

/// The tabs with the cursor of a file's tab aiming for a cell.
pub open spec fn with_aim(tabs: TabsView, path: Seq<char>, aim: usize) -> TabsView {
    match tabs.find_path(path) {
        Some(i) => tabs.with_tab(
            i,
            TabView {
                cursor: Cursor { preferred_col: aim, ..tabs.open[i].cursor },
                ..tabs.open[i]
            },
        ),
        None => tabs,
    }
}

/// What an answer about a definition does to tabs, jumps, alerts and
/// requests. In a loaded file the cursor aims for as many cells as stand
/// before it. Only the answer to the newest request counts.
pub open spec fn goto_applied(
    t: TabsView,
    e: EditsView,
    j: JumpsView,
    a: AlertsView,
    p: PendingView,
    chains: Map<Seq<char>, Seq<Seq<char>>>,
    term: Terminal,
    side_visible: bool,
    w: Map<Seq<char>, usize>,
    seq: u64,
    location: Option<LocationView>,
) -> (TabsView, JumpsView, AlertsView, PendingView, Map<Seq<char>, Seq<Seq<char>>>) {
    if p.latest_goto != Some(seq) {
        (t, j, a, p, chains)
    } else {
        let p2 = PendingView { latest_goto: None, ..p };
        match location {
            None => (
                t,
                j,
                alerts::warned(a, "lsp.goto"@, "No definition found"@),
                p2,
                chains,
            ),
            Some(l) => match jumps::position(t) {
                None => (t, j, a, p2, chains),
                Some(here) => {
                    let j2 = jumps::recorded(j, here);
                    let a2 = alerts::warn_cleared(a, "lsp.goto"@);
                    if t.find_path(l.path) is Some && e.has(l.path) {
                        let text = e.buffers[l.path].text;
                        let line = columns::clamped_line(text, l.line as int);
                        let col = column_of_units(text, line, l.col as int);
                        (
                            with_aim(
                                issues::landed_at(
                                    t,
                                    e,
                                    l.path,
                                    line as usize,
                                    col as usize,
                                    term,
                                    side_visible,
                                ),
                                l.path,
                                cells::prefix_cells(w, text, line, col),
                            ),
                            j2,
                            a2,
                            p2,
                            chains,
                        )
                    } else {
                        (
                            issues::landed_at(t, e, l.path, l.line, l.col, term, side_visible),
                            j2,
                            a2,
                            p2,
                            chains.insert(l.path, seq![l.path]),
                        )
                    }
                },
            },
        }
    }
}

/// Goes to the definition that a server named.
pub fn apply_goto(
    tabs: &mut Tabs,
    edits: &BufferEdits,
    jumps: &mut JumpListState,
    alerts: &mut AlertState,
    lsp_pending: &mut LspPending,
    path_chains: &mut PathChains,
    terminal: &Terminal,
    side_visible: bool,
    widths: &CellWidths,
    seq: u64,
    location: Option<Location>,
)
    ensures
        (
            final(tabs)@,
            final(jumps)@,
            final(alerts)@,
            final(lsp_pending)@,
            browser::chain_views(final(path_chains).map()),
        ) == goto_applied(
            old(tabs)@,
            edits@,
            old(jumps)@,
            old(alerts)@,
            old(lsp_pending)@,
            browser::chain_views(old(path_chains).map()),
            *terminal,
            side_visible,
            widths@,
            seq,
            opt_location(location),
        ),
{
    match lsp_pending.latest_goto_seq {
        Some(s) => {
            if s != seq {
                return;
            }
        },
        None => {
            return;
        },
    }
    lsp_pending.latest_goto_seq = None;
    let l = match location {
        Some(l) => l,
        None => {
            alerts.set_warn("lsp.goto".to_owned(), "No definition found".to_owned());
            return;
        },
    };
    let here = match current_position(tabs) {
        Some(p) => p,
        None => {
            return;
        },
    };
    jumps.record(here);
    alerts.clear_warn("lsp.goto");
    let open: bool = tabs.find_path(l.path.as_str()).is_some();
    if open {
        if let Some(eb) = edits.get(l.path.as_str()) {
            let count: usize = rope_len_lines(&eb.rope);
            let line: usize = if l.line < count {
                l.line
            } else {
                count - 1
            };
            let col: usize = column_from_units(&eb.rope, line, l.col);
            land_at(tabs, edits, &l.path, line, col, terminal, side_visible);
            if let Some(i) = tabs.find_path(l.path.as_str()) {
                let mut tab = tabs.at(i).copy();
                tab.cursor.preferred_col = prefix_display_width(widths, &eb.rope, line, col);
                tabs.set(i, tab);
            }
            return;
        }
    }
    let mut chain: Vec<String> = Vec::new();
    chain.push(l.path.text.clone());
    assert(buffers::string_views(chain@) =~= seq![l@.path]);
    path_chains.insert(l.path.text.clone(), chain);
    assert(browser::chain_views(path_chains.map()) =~= browser::chain_views(
        old(path_chains).map(),
    ).insert(l@.path, seq![l@.path]));
    land_at(tabs, edits, &l.path, l.line, l.col, terminal, side_visible);
}

/// An answer to a request that is not the newest does nothing.
pub proof fn late_answers_do_nothing(
    t: TabsView,
    e: EditsView,
    j: JumpsView,
    a: AlertsView,
    p: PendingView,
    chains: Map<Seq<char>, Seq<Seq<char>>>,
    term: Terminal,
    side_visible: bool,
    w: Map<Seq<char>, usize>,
    seq: u64,
    location: Option<LocationView>,
)
    requires
        p.latest_goto != Some(seq),
    ensures
        goto_applied(t, e, j, a, p, chains, term, side_visible, w, seq, location) == (
            t,
            j,
            a,
            p,
            chains,
        ),
{
}

// ---------------------------------------------------------------------
// Edits
// ---------------------------------------------------------------------

/// A replacement that a server wants. Columns count characters.
pub struct TextEditOp {
    pub start_line: usize,
    pub start_col: usize,
    pub end_line: usize,
    pub end_col: usize,
    pub new_text: String,
}

#[verifier::ext_equal]
pub struct TextEditView {
    pub start_line: usize,
    pub start_col: usize,
    pub end_line: usize,
    pub end_col: usize,
    pub new_text: Seq<char>,
}

impl View for TextEditOp {
    type V = TextEditView;

    open spec fn view(&self) -> TextEditView {
        TextEditView {
            start_line: self.start_line,
            start_col: self.start_col,
            end_line: self.end_line,
            end_col: self.end_col,
            new_text: self.new_text@,
        }
    }
}

pub open spec fn edit_views(s: Seq<TextEditOp>) -> Seq<TextEditView> {
    Seq::new(s.len(), |i: int| s[i]@)
}

impl TextEditOp {
    fn copy(&self) -> (o: TextEditOp)
        ensures
            o@ == self@,
    {
        TextEditOp {
            start_line: self.start_line,
            start_col: self.start_col,
            end_line: self.end_line,
            end_col: self.end_col,
            new_text: self.new_text.clone(),
        }
    }
}

/// The replacements in one file.
pub struct FileEdit {
    pub path: CanonPath,
    pub edits: Vec<TextEditOp>,
}

#[verifier::ext_equal]
pub struct FileEditView {
    pub path: Seq<char>,
    pub edits: Seq<TextEditView>,
}

impl View for FileEdit {
    type V = FileEditView;

    open spec fn view(&self) -> FileEditView {
        FileEditView { path: self.path@, edits: edit_views(self.edits@) }
    }
}

pub open spec fn file_edit_views(s: Seq<FileEdit>) -> Seq<FileEditView> {
    Seq::new(s.len(), |i: int| s[i]@)
}

/// The end of a line, behind its break.
pub open spec fn line_stop(t: Seq<char>, line: int) -> int {
    if line + 1 < text::line_count(t) {
        text::line_start(t, line + 1)
    } else {
        t.len() as int
    }
}

/// The index of a place in a text, if there is such a line and the column
/// lies on it or on its break.
pub open spec fn place_on_line(t: Seq<char>, line: int, col: int) -> Option<int> {
    if line >= text::line_count(t) || text::line_start(t, line) + col > line_stop(t, line) {
        None
    } else {
        Some(text::line_start(t, line) + col)
    }
}

/// The range that a replacement is about, if it lies in the text.
pub open spec fn edit_range(t: Seq<char>, op: TextEditView) -> Option<(int, int)> {
    match (
        place_on_line(t, op.start_line as int, op.start_col as int),
        place_on_line(t, op.end_line as int, op.end_col as int),
    ) {
        (Some(a), Some(b)) => if a <= b {
            Some((a, b))
        } else {
            None
        },
        _ => None,
    }
}

fn find_place(rope: &ropey::Rope, line: usize, col: usize) -> (r: Option<usize>)
    ensures
        match r {
            Some(i) => place_on_line(text::rope_text(*rope), line as int, col as int) == Some(
                i as int,
            ) && i <= text::rope_text(*rope).len(),
            None => place_on_line(text::rope_text(*rope), line as int, col as int) is None,
        },
{
    let ghost t = text::rope_text(*rope);
    let count: usize = rope_len_lines(rope);
    if line >= count {
        return None;
    }
    proof {
        text::lemma_line_start(t, line as int);
        text::lemma_line_start_mono(t, line as int, line + 1);
    }
    let start: usize = rope_line_to_char(rope, line);
    let end: usize = if line < count - 1 {
        proof {
            text::lemma_line_start(t, line + 1);
        }
        rope_line_to_char(rope, line + 1)
    } else {
        rope_len(rope)
    };
    if col <= end - start {
        Some(start + col)
    } else {
        None
    }
}

/// A buffer's text, its version, the operations made on it and how many
/// replacements they are.
#[verifier::ext_equal]
pub struct Progress {
    pub text: Seq<char>,
    pub version: u64,
    pub ops: Seq<OpView>,
    pub count: nat,
}

/// One more replacement made, if its range lies in the text.
pub open spec fn one_made(w: Progress, op: TextEditView) -> Progress {
    match edit_range(w.text, op) {
        None => w,
        Some((a, b)) => Progress {
            text: replace_one::spliced(w.text, a, b - a, op.new_text),
            version: edits::bumped(w.version),
            ops: w.ops + edits::replace_ops(a, w.text.subrange(a, b), op.new_text),
            count: w.count + 1,
        },
    }
}

/// The first `n` replacements made.
pub open spec fn made(w: Progress, ops: Seq<TextEditView>, n: int) -> Progress
    decreases n,
{
    if n <= 0 || n > ops.len() {
        w
    } else {
        one_made(made(w, ops, n - 1), ops[n - 1])
    }
}

/// `a` starts behind `b`.
pub open spec fn starts_behind(a: TextEditView, b: TextEditView) -> bool {
    a.start_line > b.start_line || (a.start_line == b.start_line && a.start_col > b.start_col)
}

/// Where a replacement goes among those that are in order.
pub open spec fn order_place(s: Seq<TextEditView>, x: TextEditView, n: int) -> int
    decreases n,
{
    if 0 < n <= s.len() && starts_behind(x, s[n - 1]) {
        order_place(s, x, n - 1)
    } else {
        n
    }
}

/// The replacements in the order in which they are made: the last in the
/// text first, so that each leaves the places of those to come alone.
pub open spec fn last_first(s: Seq<TextEditView>) -> Seq<TextEditView>
    decreases s.len(),
{
    if s.len() == 0 {
        s
    } else {
        let rest = last_first(s.drop_last());
        rest.insert(order_place(rest, s.last(), rest.len() as int), s.last())
    }
}

/// Made in order, no replacement starts behind one that was made before.
pub proof fn last_first_is_in_order(s: Seq<TextEditView>)
    ensures
        last_first(s).len() == s.len(),
        forall|i: int, j: int|
            0 <= i < j < last_first(s).len() ==> !starts_behind(
                #[trigger] last_first(s)[j],
                #[trigger] last_first(s)[i],
            ),
    decreases s.len(),
{
    if s.len() > 0 {
        let rest = last_first(s.drop_last());
        let x = s.last();
        last_first_is_in_order(s.drop_last());
        lemma_order_place(rest, x, rest.len() as int);
        let p = order_place(rest, x, rest.len() as int);
        let all = last_first(s);
        assert forall|i: int, j: int| 0 <= i < j < all.len() implies !starts_behind(
            #[trigger] all[j],
            #[trigger] all[i],
        ) by {
            if j < p {
            } else if j == p {
                assert(all[i] == rest[i]);
                if i < p - 1 {
                    assert(!starts_behind(rest[p - 1], rest[i]));
                }
            } else {
                assert(all[j] == rest[j - 1]);
                if i < p {
                    assert(all[i] == rest[i]);
                } else if i == p {
                    assert(starts_behind(x, rest[j - 1]));
                } else {
                    assert(all[i] == rest[i - 1]);
                }
            }
        }
    }
}

/// Made in order, all replacements are made and no others.
pub proof fn last_first_holds_the_same(s: Seq<TextEditView>)
    ensures
        last_first(s).to_multiset() == s.to_multiset(),
    decreases s.len(),
{
    broadcast use vstd::seq_lib::group_to_multiset_ensures;

    if s.len() > 0 {
        let rest = last_first(s.drop_last());
        let x = s.last();
        last_first_holds_the_same(s.drop_last());
        lemma_order_place(rest, x, rest.len() as int);
        let p = order_place(rest, x, rest.len() as int);
        assert(s =~= s.drop_last().push(x));
        vstd::seq_lib::to_multiset_insert(rest, p, x);
    } else {
        assert(last_first(s) =~= s);
    }
}

/// Replacements that start at one place keep the order they came in.
pub proof fn replacements_at_one_place_keep_their_order(a: TextEditView, b: TextEditView)
    requires
        a.start_line == b.start_line,
        a.start_col == b.start_col,
    ensures
        last_first(seq![a, b]) == seq![a, b],
{
    reveal_with_fuel(last_first, 3);
    reveal_with_fuel(order_place, 3);
    let s = seq![a, b];
    assert(s.drop_last() =~= seq![a]);
    assert(seq![a].drop_last() =~= seq![]);
    assert(last_first(seq![a]) =~= seq![a]);
    assert(last_first(s) =~= seq![a, b]);
}

/// A delivery that is the answer to the newest request of its kind makes
/// the edits of every loaded file in it, and touches no other file. One
/// that is not the answer makes none.
pub proof fn delivered_files_are_edited(
    t: TabsView,
    e: EditsView,
    a: AlertsView,
    p: PendingView,
    seq: u64,
    origin: EditsOrigin,
    fes: Seq<FileEditView>,
    now: u64,
    path: Seq<char>,
)
    requires
        !(origin is Format),
        e.has(path),
        forall|i: int, j: int| 0 <= i < j < fes.len() ==> fes[i].path != fes[j].path,
    ensures
        ({
            let e2 = delivered(t, e, a, p, seq, origin, fes, now).0;
            let c = cursor_in(t, path);
            let newest = if origin is Rename {
                p.latest_rename
            } else {
                p.latest_select
            };
            &&& e2.has(path)
            &&& newest != Some(seq) || (forall|i: int|
                0 <= i < fes.len() ==> #[trigger] fes[i].path != path) ==> e2.buffers[path]
                == e.buffers[path]
            &&& forall|i: int|
                newest == Some(seq) && 0 <= i < fes.len() && #[trigger] fes[i].path == path
                    && fes[i].edits.len() > 0 ==> exists|clock: u64|
                    e2.buffers[path] == (#[trigger] replacements_made(
                        e.buffers[path],
                        clock,
                        fes[i].edits,
                        c,
                    )).0
        }),
{
    let newest = if origin is Rename {
        p.latest_rename
    } else {
        p.latest_select
    };
    let n = fes.len() as int;
    if newest == Some(seq) {
        if forall|i: int| 0 <= i < n ==> #[trigger] fes[i].path != path {
            lemma_untouched(t, e, fes, n, path);
        } else {
            let i = choose|i: int| 0 <= i < n && #[trigger] fes[i].path == path;
            lemma_untouched(t, e, fes, i, path);
            lemma_touched_once(t, e, fes, n, i);
        }
    }
}

proof fn lemma_untouched(t: TabsView, e: EditsView, fes: Seq<FileEditView>, n: int, path: Seq<char>)
    requires
        0 <= n <= fes.len(),
        e.has(path),
        forall|i: int| 0 <= i < n ==> #[trigger] fes[i].path != path,
    ensures
        files_edited(t, e, fes, n).0.has(path),
        files_edited(t, e, fes, n).0.buffers[path] == e.buffers[path],
    decreases n,
{
    if n > 0 {
        lemma_untouched(t, e, fes, n - 1, path);
        assert(fes[n - 1].path != path);
    }
}

proof fn lemma_touched_once(t: TabsView, e: EditsView, fes: Seq<FileEditView>, n: int, i: int)
    requires
        0 <= i < n <= fes.len(),
        e.has(fes[i].path),
        forall|j: int, k: int| 0 <= j < k < fes.len() ==> fes[j].path != fes[k].path,
    ensures
        files_edited(t, e, fes, n).0.has(fes[i].path),
        ({
            let path = fes[i].path;
            let c = cursor_in(t, path);
            let b = files_edited(t, e, fes, n).0.buffers[path];
            if fes[i].edits.len() > 0 {
                exists|clock: u64|
                    b == (#[trigger] replacements_made(
                        e.buffers[path],
                        clock,
                        fes[i].edits,
                        c,
                    )).0
            } else {
                b == e.buffers[path]
            }
        }),
    decreases n,
{
    let path = fes[i].path;
    if i == n - 1 {
        assert forall|j: int| 0 <= j < n - 1 implies #[trigger] fes[j].path != path by {
            assert(fes[j].path != fes[i].path);
        }
        lemma_untouched(t, e, fes, n - 1, path);
        let e1 = files_edited(t, e, fes, n - 1).0;
        if fes[i].edits.len() > 0 {
            let b = files_edited(t, e, fes, n).0.buffers[path];
            assert(b == replacements_made(
                e.buffers[path],
                e1.clock,
                fes[i].edits,
                cursor_in(t, path),
            ).0);
        }
    } else {
        lemma_touched_once(t, e, fes, n - 1, i);
        assert(fes[i].path != fes[n - 1].path);
    }
}

proof fn lemma_order_place(s: Seq<TextEditView>, x: TextEditView, n: int)
    requires
        0 <= n <= s.len(),
    ensures
        0 <= order_place(s, x, n) <= n,
        forall|i: int| order_place(s, x, n) <= i < n ==> starts_behind(x, #[trigger] s[i]),
        order_place(s, x, n) > 0 ==> !starts_behind(x, s[order_place(s, x, n) - 1]),
    decreases n,
{
    if n > 0 && starts_behind(x, s[n - 1]) {
        lemma_order_place(s, x, n - 1);
    }
}

fn sort_edits(v: &Vec<TextEditOp>) -> (out: Vec<TextEditOp>)
    ensures
        edit_views(out@) == last_first(edit_views(v@)),
{
    let mut out: Vec<TextEditOp> = Vec::new();
    let ghost all = edit_views(v@);
    let mut i: usize = 0;
    assert(all.subrange(0, 0) =~= Seq::<TextEditView>::empty());
    assert(edit_views(out@) =~= Seq::<TextEditView>::empty());
    while i < v.len()
        invariant
            i <= v.len(),
            all == edit_views(v@),
            edit_views(out@) == last_first(all.subrange(0, i as int)),
        decreases v.len() - i,
    {
        let ghost rest = edit_views(out@);
        let ghost x = all[i as int];
        let mut p: usize = out.len();
        while p > 0 && (v[i].start_line > out[p - 1].start_line || (v[i].start_line == out[p
            - 1].start_line && v[i].start_col > out[p - 1].start_col))
            invariant
                p <= out.len(),
                i < v.len(),
                rest == edit_views(out@),
                x == v[i as int]@,
                order_place(rest, x, rest.len() as int) == order_place(rest, x, p as int),
            decreases p,
        {
            assert(rest[p - 1] == out[p - 1]@);
            p = p - 1;
        }
        if p > 0 {
            assert(rest[p - 1] == out[p - 1]@);
        }
        out.insert(p, v[i].copy());
        assert(edit_views(out@) =~= rest.insert(p as int, x));
        assert(all.subrange(0, i + 1).drop_last() =~= all.subrange(0, i as int));
        assert(all.subrange(0, i + 1).last() == x);
        i = i + 1;
    }
    assert(all.subrange(0, v.len() as int) =~= all);
    out
}

/// A buffer with replacements made, as one step that can be undone.
pub open spec fn replacements_made(b: BufferView, clock: u64, ops: Seq<TextEditView>, c: Cursor) -> (
    BufferView,
    u64,
    nat,
) {
    let w0 = Progress { text: b.text, version: b.version, ops: seq![], count: 0 };
    let w = made(w0, last_first(ops), ops.len() as int);
    if w.count == 0 {
        (b, clock, 0)
    } else {
        (
            BufferView {
                text: w.text,
                version: w.version,
                history: edits::recorded(b.history, edits::bumped(clock), w.ops, c, c, None),
                ..b
            },
            edits::bumped(clock),
            w.count,
        )
    }
}

/// Makes one replacement, and hands back what is to be recorded of it. One
/// whose range does not lie in the text is not made.
pub fn apply_one_text_edit(eb: &mut EditedBuffer, op: &TextEditOp) -> (r: Option<
    (usize, String, String),
>)
    ensures
        final(eb).history == old(eb).history,
        final(eb)@.saved_version == old(eb)@.saved_version,
        final(eb)@.disk_content_hash == old(eb)@.disk_content_hash,
        match (edit_range(old(eb)@.text, op@), r) {
            (None, None) => final(eb)@ == old(eb)@,
            (Some(x), Some(y)) => {
                &&& y.0 == x.0
                &&& y.1@ == old(eb)@.text.subrange(x.0, x.1)
                &&& y.2@ == op@.new_text
                &&& final(eb)@.text == replace_one::spliced(
                    old(eb)@.text,
                    x.0,
                    x.1 - x.0,
                    op@.new_text,
                )
                &&& final(eb)@.version == edits::bumped(old(eb)@.version)
            },
            _ => false,
        },
        ({
            let t = old(eb)@.text;
            let a = text::line_start(t, op.start_line as int) + op.start_col;
            let b = text::line_start(t, op.end_line as int) + op.end_col;
            if op.start_line < text::line_count(t) && op.end_line < text::line_count(t) && a
                <= text::line_start(t, op.start_line + 1) && b <= text::line_start(
                t,
                op.end_line + 1,
            ) && a <= b {
                &&& r is Some
                &&& final(eb)@.text == t.subrange(0, a) + op.new_text@ + t.subrange(
                    b,
                    t.len() as int,
                )
            } else {
                r is None && final(eb)@ == old(eb)@
            }
        }),
{
    proof {
        lemma_in_text(eb@.text, op@);
        if let Some((a, b)) = edit_range(eb@.text, op@) {
            lemma_edit_range(eb@.text, op@);
            lemma_spliced(eb@.text, a, b, op@.new_text);
        }
    }
    let (a, b): (usize, usize) = match (
        find_place(&eb.rope, op.start_line, op.start_col),
        find_place(&eb.rope, op.end_line, op.end_col),
    ) {
        (Some(a), Some(b)) => (a, b),
        _ => {
            return None;
        },
    };
    if b < a {
        return None;
    }
    let gone = rope_slice(&eb.rope, a, b);
    let mut rope = rope_clone(&eb.rope);
    rope_remove(&mut rope, a, b);
    rope_insert(&mut rope, a, op.new_text.as_str());
    eb.rope = rope;
    eb.version = bump_u64(eb.version);
    Some((a, gone, op.new_text.clone()))
}

/// The two places of a replacement lie in the text, the first not behind
/// the second.
pub open spec fn lies_in(t: Seq<char>, op: TextEditView) -> bool {
    &&& op.start_line < text::line_count(t)
    &&& op.end_line < text::line_count(t)
    &&& op.start_col <= text::line_start(t, op.start_line + 1) - text::line_start(
        t,
        op.start_line as int,
    )
    &&& op.end_col <= text::line_start(t, op.end_line + 1) - text::line_start(
        t,
        op.end_line as int,
    )
    &&& first_index(t, op) <= end_index(t, op)
}

/// Where the text that is replaced begins.
pub open spec fn first_index(t: Seq<char>, op: TextEditView) -> int {
    text::line_start(t, op.start_line as int) + op.start_col
}

/// Where the text that is replaced ends.
pub open spec fn end_index(t: Seq<char>, op: TextEditView) -> int {
    text::line_start(t, op.end_line as int) + op.end_col
}

/// A replacement is made if and only if its places lie in the text, be they
/// on one line or on several.
proof fn lemma_in_text(t: Seq<char>, op: TextEditView)
    ensures
        lies_in(t, op) ==> edit_range(t, op) == Some((first_index(t, op), end_index(t, op))),
        !lies_in(t, op) ==> edit_range(t, op) is None,
        lies_in(t, op) ==> 0 <= first_index(t, op) <= end_index(t, op) <= t.len(),
{
    text::lemma_line_start(t, op.start_line as int);
    text::lemma_line_start(t, op.end_line as int);
    if op.start_line + 1 >= text::line_count(t) {
        text::lemma_line_start_past(t, op.start_line + 1);
    }
    if op.end_line + 1 >= text::line_count(t) {
        text::lemma_line_start_past(t, op.end_line + 1);
    }
}

proof fn lemma_spliced(t: Seq<char>, a: int, b: int, put: Seq<char>)
    requires
        0 <= a <= b <= t.len(),
    ensures
        replace_one::spliced(t, a, b - a, put) == t.subrange(0, a) + put + t.subrange(
            b,
            t.len() as int,
        ),
{
    let cut = text::removed(t, a, b);
    assert(cut.subrange(0, a) =~= t.subrange(0, a));
    assert(cut.subrange(a, cut.len() as int) =~= t.subrange(b, t.len() as int));
}

/// The text from `from` on with the replacements from `k` on made in it,
/// all of them at the places that they name in `t`. They come in the order
/// of their places.
pub open spec fn woven(t: Seq<char>, s: Seq<TextEditView>, k: int, from: int) -> Seq<char>
    decreases s.len() - k,
{
    if k < 0 || k >= s.len() {
        t.subrange(from, t.len() as int)
    } else {
        t.subrange(from, first_index(t, s[k])) + s[k].new_text + woven(
            t,
            s,
            k + 1,
            end_index(t, s[k]),
        )
    }
}

/// Replacements that lie in a text, each behind the one that is made after
/// it.
pub open spec fn apart(t: Seq<char>, q: Seq<TextEditView>) -> bool {
    &&& forall|i: int| 0 <= i < q.len() ==> lies_in(t, #[trigger] q[i])
    &&& forall|i: int, j: int|
        0 <= i < j < q.len() ==> end_index(t, #[trigger] q[j]) <= first_index(t, #[trigger] q[i])
}

/// No carriage return stands without a line feed behind it.
pub open spec fn no_lone_return(t: Seq<char>) -> bool {
    forall|i: int|
        0 <= i < t.len() && #[trigger] t[i] == '\r' ==> i + 1 < t.len() && t[i + 1] == '\n'
}

/// Where the part of the text starts that `n` replacements have touched.
spec fn touched(t: Seq<char>, q: Seq<TextEditView>, n: int) -> int {
    if n <= 0 {
        t.len() as int
    } else {
        first_index(t, q[n - 1])
    }
}

proof fn lemma_woven_step(
    t: Seq<char>,
    u: Seq<char>,
    op: TextEditView,
    m: int,
    x: int,
    tail: Seq<char>,
)
    requires
        lies_in(t, op),
        no_lone_return(t),
        end_index(t, op) <= m <= t.len(),
        m <= u.len(),
        u.subrange(0, m) == t.subrange(0, m),
        u == t.subrange(0, end_index(t, op)) + tail,
        0 <= x <= first_index(t, op),
    ensures
        edit_range(u, op) == Some((first_index(t, op), end_index(t, op))),
        replace_one::spliced(
            u,
            first_index(t, op),
            end_index(t, op) - first_index(t, op),
            op.new_text,
        ) == t.subrange(0, x) + (t.subrange(x, first_index(t, op)) + op.new_text + tail),
{
    let a = first_index(t, op);
    let b = end_index(t, op);
    lemma_in_text(t, op);
    lemma_no_return(t, op.start_line as int, m);
    lemma_no_return(t, op.end_line as int, m);
    text::places_of_a_shared_beginning(t, u, m, op.start_line as int, op.start_col as int);
    text::places_of_a_shared_beginning(t, u, m, op.end_line as int, op.end_col as int);
    lemma_in_text(u, op);
    lemma_spliced(u, a, b, op.new_text);
    assert(u.subrange(0, a) =~= t.subrange(0, a));
    assert(u.subrange(b, u.len() as int) =~= tail);
    assert(t.subrange(0, a) + op.new_text + tail =~= t.subrange(0, x) + (t.subrange(x, a)
        + op.new_text + tail));
}

proof fn lemma_woven(t: Seq<char>, q: Seq<TextEditView>, w: Progress, n: int, x: int)
    requires
        apart(t, q),
        no_lone_return(t),
        w.text == t,
        0 <= n <= q.len(),
        0 <= x <= touched(t, q, n),
    ensures
        made(w, q, n).count == w.count + n,
        made(w, q, n).text == t.subrange(0, x) + woven(t, q.reverse(), q.len() - n, x),
        touched(t, q, n) <= t.len(),
    decreases n,
{
    let s = q.reverse();
    if n == 0 {
        assert(t =~= t.subrange(0, x) + t.subrange(x, t.len() as int));
    } else {
        let op = q[n - 1];
        let b = end_index(t, op);
        let u = made(w, q, n - 1);
        let m = touched(t, q, n - 1);
        lemma_in_text(t, op);
        if n > 1 {
            lemma_in_text(t, q[n - 2]);
        }
        assert(b <= m);
        lemma_woven(t, q, w, n - 1, m);
        lemma_woven(t, q, w, n - 1, b);
        assert(u.text.subrange(0, m) =~= t.subrange(0, m));
        assert(s[s.len() - n] == op);
        lemma_woven_step(t, u.text, op, m, x, woven(t, s, s.len() - n + 1, b));
    }
}

proof fn lemma_no_return(t: Seq<char>, line: int, m: int)
    requires
        no_lone_return(t),
        0 <= line < text::line_count(t),
        0 <= m <= t.len(),
    ensures
        text::line_start(t, line) == m && m > 0 ==> t[m - 1] != '\r',
{
    if text::line_start(t, line) == m && m > 0 && t[m - 1] == '\r' {
        text::lemma_line_start(t, line - 1);
        text::lemma_after_break(t, text::line_start(t, line - 1));
        text::lemma_line_start_breaks(t, line);
        assert(text::breaks_before(t, m) == text::breaks_before(t, m - 1));
        text::lemma_line_of(t, m - 1);
        assert(t[m] == '\n');
        assert(false);
    }
}

/// Replacements that do not overlap are all made, each at the place that it
/// names in the text as it was, whatever the order they come in and
/// wherever they start and end; all else in the text stays, and one undo
/// takes all of them back. Only a text with a carriage return on its own is
/// left out, where a line feed put in behind it moves a line.
pub proof fn replacements_are_made_where_they_point(
    b: BufferView,
    clock: u64,
    ops: Seq<TextEditView>,
    c: Cursor,
)
    requires
        ops.len() > 0,
        apart(b.text, last_first(ops)),
        no_lone_return(b.text),
    ensures
        ({
            let (b2, clock2, n) = replacements_made(b, clock, ops, c);
            &&& n == ops.len()
            &&& b2.text == woven(b.text, last_first(ops).reverse(), 0, 0)
            &&& b2.text != b.text ==> undo::buffer_undone(b2).text == b.text
            &&& b2.saved_version == b.saved_version
            &&& b2.disk_content_hash == b.disk_content_hash
        }),
{
    let q = last_first(ops);
    let w0 = Progress { text: b.text, version: b.version, ops: seq![], count: 0 };
    last_first_is_in_order(ops);
    if q.len() > 0 {
        lemma_in_text(b.text, q.last());
    }
    lemma_woven(b.text, q, w0, q.len() as int, 0);
    assert(b.text.subrange(0, 0) + woven(b.text, q.reverse(), 0, 0) =~= woven(
        b.text,
        q.reverse(),
        0,
        0,
    ));
    one_undo_takes_replacements_back(b, clock, ops, c);
}

/// One undo takes back all replacements that were made in a buffer.
pub proof fn one_undo_takes_replacements_back(
    b: BufferView,
    clock: u64,
    ops: Seq<TextEditView>,
    c: Cursor,
)
    ensures
        ({
            let b2 = replacements_made(b, clock, ops, c).0;
            b2.text != b.text ==> undo::buffer_undone(b2).text == b.text
        }),
{
    let q = last_first(ops);
    let w0 = Progress { text: b.text, version: b.version, ops: seq![], count: 0 };
    last_first_is_in_order(ops);
    lemma_made_true(b, q, q.len() as int);
    let w = made(w0, q, q.len() as int);
    let b2 = replacements_made(b, clock, ops, c).0;
    if w.count > 0 && w.ops.len() > 0 {
        let h = b2.history;
        let n = h.past.len() as int;
        assert(edits::finalised(h) == h);
        assert(h.past[n - 1].ops == w.ops);
        assert(edits::last_real(h.past, n) == Some(n - 1));
        edits::inverting_ops_undoes_them(b.text, w.ops, 0);
    }
}

/// The operations that replacements are recorded as truly apply.
proof fn lemma_made_true(b: BufferView, ops: Seq<TextEditView>, n: int)
    requires
        0 <= n <= ops.len(),
    ensures
        ({
            let w = made(
                Progress { text: b.text, version: b.version, ops: seq![], count: 0 },
                ops,
                n,
            );
            &&& edits::ops_true(b.text, w.ops)
            &&& edits::ops_applied(b.text, w.ops, w.ops.len() as int) == w.text
        }),
    decreases n,
{
    if n > 0 {
        let w0 = Progress { text: b.text, version: b.version, ops: seq![], count: 0 };
        let w = made(w0, ops, n - 1);
        lemma_made_true(b, ops, n - 1);
        if let Some((from, to)) = edit_range(w.text, ops[n - 1]) {
            lemma_edit_range(w.text, ops[n - 1]);
            let more = edits::replace_ops(from, w.text.subrange(from, to), ops[n - 1].new_text);
            truth::lemma_replace_ops(w.text, from, to - from, ops[n - 1].new_text);
            edits::lemma_ops_true_concat(b.text, w.ops, more);
            edits::lemma_ops_concat(b.text, w.ops, more, more.len() as int);
        }
    }
}

/// A range to be replaced lies in the text.
proof fn lemma_edit_range(t: Seq<char>, op: TextEditView)
    requires
        edit_range(t, op) is Some,
    ensures
        0 <= (edit_range(t, op)->0).0 <= (edit_range(t, op)->0).1 <= t.len(),
{
    text::lemma_line_start(t, op.start_line as int);
    text::lemma_line_start(t, op.start_line + 1);
    text::lemma_line_start(t, op.end_line as int);
    text::lemma_line_start(t, op.end_line + 1);
}

proof fn lemma_made_prefix(w: Progress, ops: Seq<TextEditView>, n: int)
    requires
        0 <= n <= ops.len(),
    ensures
        w.count <= made(w, ops, n).count <= w.count + n,
    decreases n,
{
    if n > 0 {
        lemma_made_prefix(w, ops, n - 1);
    }
}

/// Makes the replacements in one buffer, and tells how many there were.
pub fn apply_file_edits(
    eb: &mut EditedBuffer,
    clock: &mut u64,
    ops: &Vec<TextEditOp>,
    cursor: Cursor,
) -> (n: usize)
    ensures
        (final(eb)@, *final(clock), n as nat) == replacements_made(
            old(eb)@,
            *old(clock),
            edit_views(ops@),
            cursor,
        ),
        truth::truthful(old(eb)@) ==> truth::truthful(final(eb)@),
{
    let ghost b0 = eb@;
    let ghost w0 = Progress { text: b0.text, version: b0.version, ops: seq![], count: 0 };
    let sorted = sort_edits(ops);
    let ghost q = edit_views(sorted@);
    proof {
        last_first_is_in_order(edit_views(ops@));
    }
    let mut done: Vec<EditOp> = Vec::new();
    assert(edits::op_views(done@) =~= seq![]);
    let mut n: usize = 0;
    let mut i: usize = 0;
    while i < sorted.len()
        invariant
            i <= sorted.len(),
            q == edit_views(sorted@),
            n <= i,
            b0 == old(eb)@,
            eb.history == old(eb).history,
            eb@.saved_version == b0.saved_version,
            eb@.disk_content_hash == b0.disk_content_hash,
            made(w0, q, i as int) == (Progress {
                text: eb@.text,
                version: eb@.version,
                ops: edits::op_views(done@),
                count: n as nat,
            }),
            n == 0 ==> eb@ == b0,
        decreases sorted.len() - i,
    {
        assert(q[i as int] == sorted[i as int]@);
        let ghost d0 = edits::op_views(done@);
        if let Some((at, gone, put)) = apply_one_text_edit(eb, &sorted[i]) {
            push_replace(&mut done, at, gone, put);
            assert(edits::op_views(done@) =~= d0 + edits::replace_ops(at as int, gone@, put@));
            n = n + 1;
        }
        i = i + 1;
    }
    if n > 0 {
        let seq: u64 = bump_u64(*clock);
        *clock = seq;
        eb.history.record(seq, done, cursor, cursor, None);
        proof {
            lemma_made_true(b0, q, q.len() as int);
            if truth::truthful(b0) {
                truth::recording_keeps_truth(
                    b0.history,
                    b0.text,
                    seq,
                    made(w0, q, q.len() as int).ops,
                    cursor,
                    cursor,
                    None,
                );
            }
        }
    }
    assert(eb@ =~= replacements_made(b0, *old(clock), edit_views(ops@), cursor).0);
    n
}

// ---------------------------------------------------------------------
// Deliveries
// ---------------------------------------------------------------------

/// What the edits are an answer to.
#[derive(Clone, Copy, Debug, PartialEq, Eq, Structural)]
pub enum EditsOrigin {
    Rename,
    CodeAction,
    Format,
}

/// The newest requests for formatting after those were answered that the
/// first `n` files of a delivery are the answer to; and whether there were
/// any.
pub open spec fn formats_answered(
    latest: Map<Seq<char>, u64>,
    seq: u64,
    fes: Seq<FileEditView>,
    n: int,
) -> (Map<Seq<char>, u64>, bool)
    decreases n,
{
    if n <= 0 || n > fes.len() {
        (latest, false)
    } else {
        let (l, any) = formats_answered(latest, seq, fes, n - 1);
        let path = fes[n - 1].path;
        if l.dom().contains(path) && l[path] == seq {
            (l.remove(path), true)
        } else {
            (l, any)
        }
    }
}

/// A file waits to be saved after the formatting that this delivery
/// answers.
pub open spec fn waits_for(p: PendingView, seq: u64, path: Seq<char>) -> bool {
    p.save_after_format.contains(path) && p.latest_format.dom().contains(path)
        && p.latest_format[path] == seq
}

/// What is pending once a delivery was let in; nothing if it is not the
/// answer to the newest request.
pub open spec fn let_in(p: PendingView, seq: u64, origin: EditsOrigin, fes: Seq<FileEditView>) -> Option<
    PendingView,
> {
    match origin {
        EditsOrigin::Rename => if p.latest_rename == Some(seq) {
            Some(PendingView { latest_rename: None, ..p })
        } else {
            None
        },
        EditsOrigin::CodeAction => if p.latest_select == Some(seq) {
            Some(PendingView { latest_select: None, ..p })
        } else {
            None
        },
        EditsOrigin::Format => if fes.len() == 0 {
            if exists|path: Seq<char>| waits_for(p, seq, path) {
                Some(
                    PendingView {
                        latest_format: Map::new(
                            |k: Seq<char>|
                                p.latest_format.dom().contains(k) && !waits_for(p, seq, k),
                            |k: Seq<char>| p.latest_format[k],
                        ),
                        ..p
                    },
                )
            } else {
                None
            }
        } else {
            let (l, any) = formats_answered(p.latest_format, seq, fes, fes.len() as int);
            if any {
                Some(PendingView { latest_format: l, ..p })
            } else {
                None
            }
        },
    }
}

/// The cursor in the tab of a file.
pub open spec fn cursor_in(t: TabsView, path: Seq<char>) -> Cursor {
    match t.find_path(path) {
        Some(i) => t.open[i].cursor,
        None => Cursor { line: 0, col: 0, preferred_col: 0 },
    }
}

fn find_cursor(tabs: &Tabs, path: &str) -> (c: Cursor)
    ensures
        c == cursor_in(tabs@, path@),
{
    match tabs.find_path(path) {
        Some(i) => tabs.at(i).cursor,
        None => Cursor::origin(),
    }
}

/// The edits after the first `n` files of a delivery, how many replacements
/// were made, and in how many files.
pub open spec fn files_edited(t: TabsView, e: EditsView, fes: Seq<FileEditView>, n: int) -> (
    EditsView,
    int,
    int,
)
    decreases n,
{
    if n <= 0 || n > fes.len() {
        (e, 0, 0)
    } else {
        let (e1, ops, files) = files_edited(t, e, fes, n - 1);
        let fe = fes[n - 1];
        if !e1.has(fe.path) || fe.edits.len() == 0 {
            (e1, ops, files)
        } else {
            let (b, clock, k) = replacements_made(
                e1.buffers[fe.path],
                e1.clock,
                fe.edits,
                cursor_in(t, fe.path),
            );
            (
                e1.with_buffer(fe.path, b, clock),
                hits::capped(ops, k as int),
                if k > 0 {
                    files + 1
                } else {
                    files
                },
            )
        }
    }
}

/// An `s` unless there is exactly one.
pub open spec fn plural(n: int) -> Seq<char> {
    if n == 1 {
        seq![]
    } else {
        seq!['s']
    }
}

/// The message about replacements that were made.
pub open spec fn delivery_message(origin: EditsOrigin, ops: int, files: int) -> Seq<char> {
    match origin {
        EditsOrigin::CodeAction => "Applied code action ("@ + chars::decimal(ops as nat) + " edit"@
            + plural(ops) + seq![')'],
        _ => if files == 1 {
            "Renamed "@ + chars::decimal(ops as nat) + " occurrence"@ + plural(ops) + " in 1 file"@
        } else {
            "Renamed "@ + chars::decimal(ops as nat) + " occurrences in "@ + chars::decimal(
                files as nat,
            ) + " files"@
        },
    }
}

/// The first `n` of the files `q` saved, as far as they waited for their
/// formatting.
pub open spec fn waiting_saved(
    t: TabsView,
    e: EditsView,
    waiting: Set<Seq<char>>,
    q: Seq<Seq<char>>,
    n: int,
) -> (EditsView, Set<Seq<char>>)
    decreases n,
{
    if n <= 0 || n > q.len() {
        (e, waiting)
    } else {
        let (e1, w1) = waiting_saved(t, e, waiting, q, n - 1);
        let path = q[n - 1];
        if !w1.contains(path) {
            (e1, w1)
        } else if !e1.has(path) {
            (e1, w1.remove(path))
        } else {
            let (b, clock, c) = save::cleaned(e1.buffers[path], e1.clock, cursor_in(t, path));
            let e2 = e1.with_buffer(path, b, clock);
            (
                EditsView { pending_saves: e2.pending_saves.insert(path), ..e2 },
                w1.remove(path),
            )
        }
    }
}

pub open spec fn delivered_paths(fes: Seq<FileEditView>) -> Seq<Seq<char>> {
    Seq::new(fes.len(), |i: int| fes[i].path)
}

/// What a delivery of edits does.
pub open spec fn delivered(
    t: TabsView,
    e: EditsView,
    a: AlertsView,
    p: PendingView,
    seq: u64,
    origin: EditsOrigin,
    fes: Seq<FileEditView>,
    now: u64,
) -> (EditsView, AlertsView, PendingView) {
    match let_in(p, seq, origin, fes) {
        None => (e, a, p),
        Some(p1) => {
            let (e1, ops, files) = files_edited(t, e, fes, fes.len() as int);
            let a1 = if ops > 0 && !(origin is Format) {
                alerts::informed(a, delivery_message(origin, ops, files), now)
            } else {
                a
            };
            if origin is Format {
                let q = if fes.len() == 0 {
                    listing::listing(p1.save_after_format)
                } else {
                    delivered_paths(fes)
                };
                let (e2, w) = waiting_saved(t, e1, p1.save_after_format, q, q.len() as int);
                (e2, a1, PendingView { save_after_format: w, ..p1 })
            } else {
                (e1, a1, p1)
            }
        },
    }
}

fn let_format_in(lsp_pending: &mut LspPending, seq: u64, file_edits: &Vec<FileEdit>) -> (r: bool)
    ensures
        match let_in(
            old(lsp_pending)@,
            seq,
            EditsOrigin::Format,
            file_edit_views(file_edits@),
        ) {
            Some(p) => r && final(lsp_pending)@ == p,
            None => !r && final(lsp_pending)@ == old(lsp_pending)@,
        },
{
    let ghost p0 = lsp_pending@;
    let ghost fes = file_edit_views(file_edits@);
    if file_edits.len() == 0 {
        let waiting = sorted_members(&lsp_pending.pending_save_after_format);
        let ghost w = buffers::string_views(waiting@);
        let mut any: bool = false;
        let mut i: usize = 0;
        while i < waiting.len()
            invariant
                i <= waiting.len(),
                w == buffers::string_views(waiting@),
                listing::is_listing(w, p0.save_after_format),
                lsp_pending@ == (PendingView { latest_format: lsp_pending@.latest_format, ..p0 }),
                forall|k: Seq<char>| #[trigger]
                    lsp_pending@.latest_format.dom().contains(k) ==> p0.latest_format.dom().contains(
                        k,
                    ) && lsp_pending@.latest_format[k] == p0.latest_format[k],
                forall|k: Seq<char>| #[trigger]
                    p0.latest_format.dom().contains(k) && !waits_for(p0, seq, k)
                        ==> lsp_pending@.latest_format.dom().contains(k),
                forall|j: int|
                    i <= j < w.len() && p0.latest_format.dom().contains(#[trigger] w[j])
                        ==> lsp_pending@.latest_format.dom().contains(w[j]),
                forall|j: int|
                    0 <= j < i && waits_for(p0, seq, #[trigger] w[j])
                        ==> !lsp_pending@.latest_format.dom().contains(w[j]),
                any == (exists|j: int| 0 <= j < i && waits_for(p0, seq, #[trigger] w[j])),
                !any ==> lsp_pending@ == p0,
            decreases waiting.len() - i,
        {
            assert(w[i as int] == waiting[i as int]@);
            assert(w.contains(w[i as int]));
            assert(p0.save_after_format.contains(w[i as int]));
            assert forall|j: int| i < j < w.len() implies w[j] != w[i as int] by {
                assert(crate::paths::path_lt(w[i as int], w[j]));
                crate::paths::path_order_is_total(w[i as int], w[j]);
            }
            let hit: bool = match lsp_pending.latest_format_seq.get(waiting[i].as_str()) {
                Some(s) => *s == seq,
                None => false,
            };
            assert(hit == waits_for(p0, seq, w[i as int]));
            if hit {
                let _ = lsp_pending.latest_format_seq.remove(waiting[i].as_str());
                any = true;
                assert(lsp_pending@ =~= PendingView {
                    latest_format: lsp_pending@.latest_format,
                    ..p0
                });
            }
            i = i + 1;
        }
        proof {
            if any {
                let j = choose|j: int| 0 <= j < w.len() && waits_for(p0, seq, #[trigger] w[j]);
                assert(waits_for(p0, seq, w[j]));
                let goal = let_in(p0, seq, EditsOrigin::Format, fes)->0;
                assert forall|k: Seq<char>| #[trigger]
                    lsp_pending@.latest_format.dom().contains(k) implies !waits_for(p0, seq, k) by {
                    if waits_for(p0, seq, k) {
                        assert(w.contains(k));
                        let m = choose|m: int| 0 <= m < w.len() && w[m] == k;
                        assert(waits_for(p0, seq, w[m]));
                    }
                }
                assert(lsp_pending@.latest_format =~= goal.latest_format);
                assert(lsp_pending@ =~= goal);
            } else {
                assert forall|path: Seq<char>| !waits_for(p0, seq, path) by {
                    if waits_for(p0, seq, path) {
                        assert(w.contains(path));
                        let m = choose|m: int| 0 <= m < w.len() && w[m] == path;
                        assert(waits_for(p0, seq, w[m]));
                    }
                }
            }
        }
        any
    } else {
        let mut any: bool = false;
        let mut i: usize = 0;
        while i < file_edits.len()
            invariant
                i <= file_edits.len(),
                fes == file_edit_views(file_edits@),
                lsp_pending@ == (PendingView { latest_format: lsp_pending@.latest_format, ..p0 }),
                (lsp_pending@.latest_format, any) == formats_answered(
                    p0.latest_format,
                    seq,
                    fes,
                    i as int,
                ),
                !any ==> lsp_pending@ == p0,
            decreases file_edits.len() - i,
        {
            assert(fes[i as int] == file_edits[i as int]@);
            let path = file_edits[i].path.as_str();
            let hit: bool = match lsp_pending.latest_format_seq.get(path) {
                Some(s) => *s == seq,
                None => false,
            };
            if hit {
                let _ = lsp_pending.latest_format_seq.remove(path);
                any = true;
            }
            i = i + 1;
        }
        any
    }
}

fn edit_files(tabs: &Tabs, edits: &mut BufferEdits, file_edits: &Vec<FileEdit>) -> (r: (
    usize,
    usize,
))
    ensures
        (final(edits)@, r.0 as int, r.1 as int) == files_edited(
            tabs@,
            old(edits)@,
            file_edit_views(file_edits@),
            file_edits.len() as int,
        ),
        truth::all_truthful(old(edits)@) ==> truth::all_truthful(final(edits)@),
{
    let ghost e0 = edits@;
    let ghost fes = file_edit_views(file_edits@);
    let mut total: usize = 0;
    let mut files: usize = 0;
    let mut i: usize = 0;
    while i < file_edits.len()
        invariant
            i <= file_edits.len(),
            fes == file_edit_views(file_edits@),
            files <= i,
            (edits@, total as int, files as int) == files_edited(tabs@, e0, fes, i as int),
            truth::all_truthful(e0) ==> truth::all_truthful(edits@),
        decreases file_edits.len() - i,
    {
        let fe = &file_edits[i];
        assert(fes[i as int] == fe@);
        let ghost e1 = edits@;
        let path = fe.path.as_str();
        if edits.has(path) && fe.edits.len() > 0 {
            let c = find_cursor(tabs, path);
            let taken = edits.take(path);
            if let Some(eb) = taken {
                let mut eb = eb;
                let mut clock: u64 = edits.clock;
                let k: usize = apply_file_edits(&mut eb, &mut clock, &fe.edits, c);
                edits.clock = clock;
                let ghost b = eb@;
                edits.put(path.to_owned(), eb);
                proof {
                    buffers::lemma_take_put(e1, path@, b, clock);
                    truth::lemma_kept(e1, path@, b, clock);
                    assert(edits@ =~= e1.with_buffer(path@, b, clock));
                }
                total = capped_add(total, k);
                if k > 0 {
                    files = files + 1;
                }
            }
        }
        i = i + 1;
    }
    (total, files)
}

fn push_plural(s: &mut String, n: usize)
    ensures
        final(s)@ == old(s)@ + plural(n as int),
{
    if n != 1 {
        s.push('s');
        assert(s@ =~= old(s)@ + seq!['s']);
    } else {
        assert(s@ + seq![] =~= s@);
    }
}

fn message_of(origin: EditsOrigin, ops: usize, files: usize) -> (s: String)
    ensures
        s@ == delivery_message(origin, ops as int, files as int),
{
    let count = decimal_string(ops);
    match origin {
        EditsOrigin::CodeAction => {
            let mut s = "Applied code action (".to_owned();
            s.push_str(count.as_str());
            s.push_str(" edit");
            push_plural(&mut s, ops);
            s.push(')');
            assert(s@ =~= delivery_message(origin, ops as int, files as int));
            s
        },
        _ => {
            let mut s = "Renamed ".to_owned();
            s.push_str(count.as_str());
            if files == 1 {
                s.push_str(" occurrence");
                push_plural(&mut s, ops);
                s.push_str(" in 1 file");
            } else {
                s.push_str(" occurrences in ");
                let m = decimal_string(files);
                s.push_str(m.as_str());
                s.push_str(" files");
            }
            s
        },
    }
}

fn save_waiting(
    tabs: &Tabs,
    edits: &mut BufferEdits,
    waiting: &mut PathSet,
    paths: &Vec<String>,
)
    ensures
        (final(edits)@, final(waiting)@) == waiting_saved(
            tabs@,
            old(edits)@,
            old(waiting)@,
            buffers::string_views(paths@),
            paths.len() as int,
        ),
        truth::all_truthful(old(edits)@) ==> truth::all_truthful(final(edits)@),
{
    let ghost e0 = edits@;
    let ghost w0 = waiting@;
    let ghost q = buffers::string_views(paths@);
    let mut i: usize = 0;
    while i < paths.len()
        invariant
            i <= paths.len(),
            q == buffers::string_views(paths@),
            (edits@, waiting@) == waiting_saved(tabs@, e0, w0, q, i as int),
            truth::all_truthful(e0) ==> truth::all_truthful(edits@),
        decreases paths.len() - i,
    {
        let path = paths[i].as_str();
        assert(q[i as int] == path@);
        let ghost e1 = edits@;
        if waiting.contains(path) {
            waiting.remove(path);
            let taken = if edits.has(path) {
                edits.take(path)
            } else {
                None
            };
            if let Some(eb) = taken {
                let mut eb = eb;
                let c = find_cursor(tabs, path);
                let mut clock: u64 = edits.clock;
                let _ = apply_save_cleanup(&mut eb, &mut clock, c);
                edits.clock = clock;
                let ghost b = eb@;
                edits.put(path.to_owned(), eb);
                proof {
                    buffers::lemma_take_put(e1, path@, b, clock);
                    truth::lemma_kept(e1, path@, b, clock);
                    assert(edits@ =~= e1.with_buffer(path@, b, clock));
                }
                let ghost e2 = edits@;
                edits.queue_save(path.to_owned());
                proof {
                    truth::lemma_same_buffers(e2, edits@);
                }
            }
        }
        i = i + 1;
    }
}

fn paths_of(file_edits: &Vec<FileEdit>) -> (v: Vec<String>)
    ensures
        buffers::string_views(v@) == delivered_paths(file_edit_views(file_edits@)),
{
    let mut v: Vec<String> = Vec::new();
    let mut i: usize = 0;
    while i < file_edits.len()
        invariant
            i <= file_edits.len(),
            v.len() == i,
            forall|j: int| 0 <= j < i ==> (#[trigger] v[j])@ == file_edits[j].path@,
        decreases file_edits.len() - i,
    {
        v.push(file_edits[i].path.text.clone());
        i = i + 1;
    }
    assert(buffers::string_views(v@) =~= delivered_paths(file_edit_views(file_edits@)));
    v
}

/// Makes the edits that a server delivered.
pub fn apply_edits(
    edits: &mut BufferEdits,
    tabs: &Tabs,
    alerts: &mut AlertState,
    lsp_pending: &mut LspPending,
    seq: u64,
    origin: EditsOrigin,
    file_edits: &Vec<FileEdit>,
    now: u64,
)
    ensures
        (final(edits)@, final(alerts)@, final(lsp_pending)@) == delivered(
            tabs@,
            old(edits)@,
            old(alerts)@,
            old(lsp_pending)@,
            seq,
            origin,
            file_edit_views(file_edits@),
            now,
        ),
        truth::all_truthful(old(edits)@) ==> truth::all_truthful(final(edits)@),
{
    match origin {
        EditsOrigin::Rename => {
            if lsp_pending.latest_rename_seq != Some(seq) {
                return;
            }
            lsp_pending.latest_rename_seq = None;
        },
        EditsOrigin::CodeAction => {
            if lsp_pending.latest_code_action_select_seq != Some(seq) {
                return;
            }
            lsp_pending.latest_code_action_select_seq = None;
        },
        EditsOrigin::Format => {
            if !let_format_in(lsp_pending, seq, file_edits) {
                return;
            }
        },
    }
    let (total, files) = edit_files(tabs, edits, file_edits);
    match origin {
        EditsOrigin::Format => {
            let paths = if file_edits.len() == 0 {
                sorted_members(&lsp_pending.pending_save_after_format)
            } else {
                paths_of(file_edits)
            };
            save_waiting(tabs, edits, &mut lsp_pending.pending_save_after_format, &paths);
        },
        _ => {
            if total > 0 {
                alerts.set_info(message_of(origin, total, files), now);
            }
        },
    }
}

/// A buffer that waited for its formatting is saved once that has come,
/// whether it changed anything or not.
pub proof fn formatted_files_are_saved(
    t: TabsView,
    e: EditsView,
    waiting: Set<Seq<char>>,
    q: Seq<Seq<char>>,
    n: int,
    k: int,
)
    requires
        0 <= k < n <= q.len(),
        waiting.contains(q[k]),
        e.has(q[k]),
    ensures
        waiting_saved(t, e, waiting, q, n).0.pending_saves.contains(q[k]),
        !waiting_saved(t, e, waiting, q, n).1.contains(q[k]),
    decreases n,
{
    lemma_waiting_saved(t, e, waiting, q, n - 1, q[k]);
    if k < n - 1 {
        formatted_files_are_saved(t, e, waiting, q, n - 1, k);
    }
}

proof fn lemma_waiting_saved(
    t: TabsView,
    e: EditsView,
    waiting: Set<Seq<char>>,
    q: Seq<Seq<char>>,
    n: int,
    path: Seq<char>,
)
    requires
        0 <= n <= q.len(),
        waiting.contains(path),
        e.has(path),
    ensures
        ({
            let (e1, w1) = waiting_saved(t, e, waiting, q, n);
            &&& e1.has(path)
            &&& !w1.contains(path) ==> e1.pending_saves.contains(path)
        }),
    decreases n,
{
    if n > 0 {
        lemma_waiting_saved(t, e, waiting, q, n - 1, path);
    }
}

/// The UTF-16 units that a text takes.
pub open spec fn units_of(s: Seq<char>) -> int
    decreases s.len(),
{
    if s.len() == 0 {
        0
    } else {
        units_of(s.drop_last()) + if s.last() <= '\u{ffff}' {
            1int
        } else {
            2int
        }
    }
}

proof fn lemma_units_first(s: Seq<char>)
    requires
        s.len() > 0,
    ensures
        units_of(s) == units(s[0]) + units_of(s.skip(1)),
    decreases s.len(),
{
    if s.len() > 1 {
        lemma_units_first(s.drop_last());
        assert(s.drop_last().skip(1) =~= s.skip(1).drop_last());
        assert(s.skip(1).last() == s.last());
        assert(s.drop_last()[0] == s[0]);
        assert(units_of(s.skip(1)) == units(s.last()) + units_of(s.skip(1).drop_last()));
        assert(units_of(s) == units(s.last()) + units_of(s.drop_last()));
    } else {
        assert(s.skip(1).len() == 0);
        assert(s.drop_last().len() == 0);
        assert(units_of(s.skip(1)) == 0);
        assert(units_of(s.drop_last()) == 0);
        assert(s.last() == s[0]);
    }
}

proof fn lemma_chars_within(s: Seq<char>, i: int, n: int, rest: int)
    requires
        0 <= i <= n <= s.len(),
        rest == units_of(s.subrange(i, n)),
    ensures
        chars_within(s, i, rest) == n,
    decreases n - i,
{
    let w = s.subrange(i, n);
    if i < n {
        lemma_units_first(w);
        assert(w[0] == s[i]);
        assert(w.skip(1) =~= s.subrange(i + 1, n));
        lemma_units_positive(w.skip(1));
        lemma_chars_within(s, i + 1, n, units_of(w.skip(1)));
    } else {
        assert(w =~= seq![]);
    }
}

proof fn lemma_units_positive(s: Seq<char>)
    ensures
        units_of(s) >= 0,
    decreases s.len(),
{
    if s.len() > 0 {
        lemma_units_positive(s.drop_last());
    }
}

/// A column that a server gives in UTF-16 units is found: behind as many
/// units of the line as it says stands the character meant.
pub proof fn units_lead_to_the_character(t: Seq<char>, line: int, k: int)
    requires
        0 <= k <= text::line_content(t, line).len(),
    ensures
        column_of_units(t, line, units_of(text::line_content(t, line).subrange(0, k)))
            == columns::offset_col(columns::line_cols(t, line), k),
{
    let s = text::line_content(t, line);
    lemma_chars_within(s, 0, k, units_of(s.subrange(0, k)));
}

/// The answer to the newest question goes to the definition, from where one
/// can jump back, and takes an older warning away; without a definition the
/// user is told, and nothing moves. The question is answered then.
pub proof fn the_definition_is_gone_to(
    t: TabsView,
    e: EditsView,
    j: JumpsView,
    a: AlertsView,
    p: PendingView,
    chains: Map<Seq<char>, Seq<Seq<char>>>,
    term: Terminal,
    side_visible: bool,
    w: Map<Seq<char>, usize>,
    seq: u64,
    l: LocationView,
    i: int,
)
    requires
        p.latest_goto == Some(seq),
        t.active_index() == Some(i),
    ensures
        ({
            let (t2, j2, a2, p2, c2) = goto_applied(
                t,
                e,
                j,
                a,
                p,
                chains,
                term,
                side_visible,
                w,
                seq,
                Some(l),
            );
            let (t3, j3, a3, p3, c3) = goto_applied(
                t,
                e,
                j,
                a,
                p,
                chains,
                term,
                side_visible,
                w,
                seq,
                None,
            );
            let here = t.open[i];
            &&& p2 == (PendingView { latest_goto: None, ..p })
            &&& p3 == (PendingView { latest_goto: None, ..p })
            &&& j2.entries.len() > 0
            &&& j2.entries.last() == (jumps::JumpView {
                path: here.path,
                line: here.cursor.line,
                col: here.cursor.col,
                scroll: here.scroll,
            })
            &&& t3 == t && j3 == j && c3 == chains
            &&& a3 == alerts::warned(a, "lsp.goto"@, "No definition found"@)
            &&& a2 == alerts::warn_cleared(a, "lsp.goto"@)
            &&& !(t.find_path(l.path) is Some && e.has(l.path)) ==> t2 == issues::landed_at(
                t,
                e,
                l.path,
                l.line,
                l.col,
                term,
                side_visible,
            ) && c2 == chains.insert(l.path, seq![l.path])
            &&& t.find_path(l.path) is Some && e.has(l.path) && l.line < text::line_count(
                e.buffers[l.path].text,
            ) ==> {
                let k = t.find_path(l.path)->0;
                let text = e.buffers[l.path].text;
                &&& t2.active == Some(t.open[k].id)
                &&& t2.open[k].cursor.line == l.line
                &&& c2 == chains
                &&& t2.open.len() == t.open.len()
            }
        }),
{
    crate::seqs::lemma_first_from(t.open, crate::tabs::by_id(t.active->0), 0);
    let (t2, j2, a2, p2, c2) = goto_applied(
        t,
        e,
        j,
        a,
        p,
        chains,
        term,
        side_visible,
        w,
        seq,
        Some(l),
    );
    if t.find_path(l.path) is Some && e.has(l.path) && l.line < text::line_count(
        e.buffers[l.path].text,
    ) {
        let text = e.buffers[l.path].text;
        let col = column_of_units(text, l.line as int, l.col as int);
        let m = issues::landed_at(t, e, l.path, l.line, col as usize, term, side_visible);
        let k = t.find_path(l.path)->0;
        crate::seqs::lemma_first_from(t.open, crate::tabs::by_path(l.path), 0);
        assert(crate::tabs::by_path(l.path)(t.open[k]));
        let b = crate::tabs::by_path(l.path);
        assert forall|x: int| 0 <= x < k implies !b(#[trigger] m.open[x]) by {
            assert(!b(t.open[x]));
        }
        assert(b(m.open[k]));
        crate::seqs::lemma_first_is(m.open, b, 0, k);
    }
}

/// An answer to a rename or to an action counts once: after it has come
/// another under its number changes nothing.
pub proof fn an_answer_counts_once(
    t: TabsView,
    e: EditsView,
    a: AlertsView,
    p: PendingView,
    seq: u64,
    origin: EditsOrigin,
    fes: Seq<FileEditView>,
    now: u64,
)
    requires
        origin is Rename || origin is CodeAction,
    ensures
        ({
            let (e2, a2, p2) = delivered(t, e, a, p, seq, origin, fes, now);
            let newest = if origin is Rename {
                p.latest_rename == Some(seq)
            } else {
                p.latest_select == Some(seq)
            };
            &&& delivered(t, e2, a2, p2, seq, origin, fes, now) == (e2, a2, p2)
            &&& !newest ==> e2 == e && a2 == a && p2 == p
            &&& newest && origin is Rename ==> p2 == (PendingView { latest_rename: None, ..p })
            &&& newest && origin is CodeAction ==> p2 == (PendingView { latest_select: None, ..p })
        }),
{
}

/// The identifier that ends at the cursor starts where its run of word
/// columns does, and what was typed of it is the text from there on.
pub proof fn the_typed_identifier_is_found(e: EditsView, path: Seq<char>, line: int, col: int, c: Cursor)
    requires
        e.has(path),
        0 <= line < text::line_count(e.buffers[path].text),
        0 <= col <= columns::line_cols(e.buffers[path].text, line).len(),
        c.col == col,
    ensures
        ({
            let g = columns::line_cols(e.buffers[path].text, line);
            let a = identifier_col(e, path, line, col);
            &&& 0 <= a <= col
            &&& forall|i: int| a <= i < col ==> #[trigger] columns::word_col(g, i)
            &&& !columns::word_col(g, a - 1)
            &&& prefix_text(e, path, c, line, a) == text::line_content(
                e.buffers[path].text,
                line,
            ).subrange(columns::col_offset(g, a), columns::col_offset(g, col))
        }),
{
    words::lemma_word_back(columns::line_cols(e.buffers[path].text, line), col);
}

/// Formatting is silent; what a rename or an action changed is told, and if
/// it changed nothing it is silent too.
pub proof fn what_was_changed_is_told(
    t: TabsView,
    e: EditsView,
    a: AlertsView,
    p: PendingView,
    seq: u64,
    fes: Seq<FileEditView>,
    now: u64,
)
    ensures
        delivered(t, e, a, p, seq, EditsOrigin::Format, fes, now).1 == a,
        p.latest_rename == Some(seq) ==> ({
            let (e1, ops, files) = files_edited(t, e, fes, fes.len() as int);
            let a2 = delivered(t, e, a, p, seq, EditsOrigin::Rename, fes, now).1;
            &&& ops > 0 ==> a2.info is Some && (a2.info->0).0 == delivery_message(
                EditsOrigin::Rename,
                ops,
                files,
            )
            &&& ops <= 0 ==> a2 == a
            &&& a2.warns == a.warns
        }),
{
}

} // verus!
