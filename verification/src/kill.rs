//! Mark, region, killing and yanking.

use vstd::prelude::*;

use crate::buffers;
use crate::buffers::{put_active, take_active, BufferEdits, EditsView};
use crate::cells;
use crate::cells::{refresh_preferred_col, CellWidths};
use crate::columns;
use crate::columns::{char_to_cursor, cursor_to_char, Cursor};
use crate::edit;
use crate::edit::cursor_line;
use crate::edits;
use crate::edits::{bump, bump_u64, BufferView, EditedBuffer, OpView};
use crate::tabs::{Tab, TabId, TabView, Tabs, TabsView};
use crate::text;
use crate::text::{
    line_char_len, rope_clone, rope_insert, rope_len, rope_len_lines, rope_line_to_char,
    rope_remove, rope_slice,
};
use crate::truth;
use crate::undo;

verus! {

/// The text that was killed last.
pub struct KillRing {
    pub latest: Option<String>,
    /// The last command killed to the end of a line: the next such kill is
    /// added to it.
    pub last_was_kill_line: bool,
}

#[verifier::ext_equal]
pub struct KillView {
    pub latest: Option<Seq<char>>,
    pub last_was_kill_line: bool,
}

pub open spec fn opt_text(s: Option<String>) -> Option<Seq<char>> {
    match s {
        Some(x) => Some(x@),
        None => None,
    }
}

impl View for KillRing {
    type V = KillView;

    open spec fn view(&self) -> KillView {
        KillView { latest: opt_text(self.latest), last_was_kill_line: self.last_was_kill_line }
    }
}

impl KillRing {
    pub fn new() -> (k: KillRing)
        ensures
            k@ == (KillView { latest: None, last_was_kill_line: false }),
    {
        KillRing { latest: None, last_was_kill_line: false }
    }
}

/// What is asked of the system clipboard.
pub struct ClipboardState {
    /// The tab that waits for the clipboard's text.
    pub pending_yank: Option<TabId>,
    pub read_in_flight: bool,
    pub pending_write: Option<String>,
}

#[verifier::ext_equal]
pub struct ClipView {
    pub pending_yank: Option<TabId>,
    pub read_in_flight: bool,
    pub pending_write: Option<Seq<char>>,
}

impl View for ClipboardState {
    type V = ClipView;

    open spec fn view(&self) -> ClipView {
        ClipView {
            pending_yank: self.pending_yank,
            read_in_flight: self.read_in_flight,
            pending_write: opt_text(self.pending_write),
        }
    }
}

impl ClipboardState {
    pub fn new() -> (c: ClipboardState)
        ensures
            c@ == (ClipView { pending_yank: None, read_in_flight: false, pending_write: None }),
    {
        ClipboardState { pending_yank: None, read_in_flight: false, pending_write: None }
    }
}

// ---------------------------------------------------------------------
// Mark
// ---------------------------------------------------------------------

/// The tabs with another mark in the active one.
pub open spec fn marked(s: TabsView, mark: spec_fn(TabView) -> Option<Cursor>) -> TabsView {
    match s.active_index() {
        Some(i) => s.with_tab(i, TabView { mark: mark(s.open[i]), ..s.open[i] }),
        None => s,
    }
}

pub open spec fn mark_here() -> spec_fn(TabView) -> Option<Cursor> {
    |t: TabView| Some(t.cursor)
}

pub open spec fn no_mark() -> spec_fn(TabView) -> Option<Cursor> {
    |t: TabView| None
}

/// Sets the mark of the active tab at its cursor.
pub fn set_mark_active(tabs: &mut Tabs)
    ensures
        final(tabs)@ == marked(old(tabs)@, mark_here()),
{
    if let Some(i) = tabs.active_index() {
        let mut t = tabs.at(i).copy();
        t.mark = Some(t.cursor);
        tabs.set(i, t);
    }
}

/// Takes the mark of the active tab away.
pub fn clear_mark(tabs: &mut Tabs)
    ensures
        final(tabs)@ == marked(old(tabs)@, no_mark()),
{
    if let Some(i) = tabs.active_index() {
        let mut t = tabs.at(i).copy();
        t.mark = None;
        tabs.set(i, t);
    }
}

/// The region between mark and cursor, unless it is empty.
pub open spec fn region(t: Seq<char>, mark: Option<Cursor>, c: Cursor) -> Option<(int, int)> {
    match mark {
        None => None,
        Some(m) => {
            let a = columns::cursor_index(t, m);
            let b = columns::cursor_index(t, c);
            if a < b {
                Some((a, b))
            } else if b < a {
                Some((b, a))
            } else {
                None
            }
        },
    }
}

/// The region between mark and cursor, as positions in the text.
pub fn region_range(tab: &Tab, rope: &ropey::Rope) -> (r: Option<(usize, usize)>)
    ensures
        r is Some <==> region(text::rope_text(*rope), tab.mark, tab.cursor) is Some,
        r is Some ==> {
            let e = region(text::rope_text(*rope), tab.mark, tab.cursor)->0;
            (r->0).0 == e.0 && (r->0).1 == e.1 && (r->0).0 < (r->0).1 <= text::rope_text(*rope).len()
        },
{
    match tab.mark {
        None => None,
        Some(mark) => {
            let a: usize = cursor_to_char(&mark, rope);
            let b: usize = cursor_to_char(&tab.cursor, rope);
            if a < b {
                Some((a, b))
            } else if b < a {
                Some((b, a))
            } else {
                None
            }
        },
    }
}

// ---------------------------------------------------------------------
// Killing
// ---------------------------------------------------------------------

/// A piece of text cut out, the cursor left where it was.
pub open spec fn cut(
    t: TabView,
    b: BufferView,
    clock: u64,
    from: int,
    to: int,
) -> (TabView, BufferView, u64) {
    let new_text = text::removed(b.text, from, to);
    let after = columns::index_cursor(new_text, from);
    (
        edit::at_cursor(t, after),
        edit::edited(
            b,
            clock,
            new_text,
            seq![OpView::Delete { at: from, text: b.text.subrange(from, to) }],
            t.cursor,
            after,
        ),
        edits::bumped(clock),
    )
}

fn cut_range(tab: &mut Tab, eb: &mut EditedBuffer, clock: &mut u64, from: usize, to: usize) -> (gone:
    String)
    requires
        from <= to <= old(eb)@.text.len(),
    ensures
        (final(tab)@, final(eb)@, *final(clock)) == cut(
            old(tab)@,
            old(eb)@,
            *old(clock),
            from as int,
            to as int,
        ),
        gone@ == old(eb)@.text.subrange(from as int, to as int),
        truth::truthful(old(eb)@) ==> truth::truthful(final(eb)@),
{
    let before = tab.cursor;
    let gone = rope_slice(&eb.rope, from, to);
    let mut rope = rope_clone(&eb.rope);
    rope_remove(&mut rope, from, to);
    let after = char_to_cursor(from, &rope);
    bump(eb, rope);
    tab.cursor = after;
    let seq: u64 = bump_u64(*clock);
    *clock = seq;
    eb.history.record_delete(seq, from, gone.clone(), before, after);
    proof {
        if truth::truthful(old(eb)@) {
            truth::lemma_deletion(
                old(eb)@.history,
                old(eb)@.text,
                seq,
                from as int,
                to as int,
                before,
                after,
            );
        }
    }
    gone
}

/// The region that would be killed in the active tab.
pub open spec fn active_region(tabs: TabsView, e: EditsView) -> Option<(int, int)> {
    match buffers::active_loaded(tabs, e) {
        Some(i) => region(
            e.buffers[tabs.open[i].path].text,
            tabs.open[i].mark,
            tabs.open[i].cursor,
        ),
        None => None,
    }
}

pub open spec fn killing_region() -> buffers::Change {
    |t: TabView, b: BufferView, c: u64|
        match region(b.text, t.mark, t.cursor) {
            Some((from, to)) => {
                let (t2, b2, c2) = cut(t, b, c, from, to);
                (TabView { mark: None, ..t2 }, b2, c2)
            },
            None => (t, b, c),
        }
}

/// The text of the region in the active tab.
pub open spec fn region_text(tabs: TabsView, e: EditsView) -> Seq<char> {
    let i = buffers::active_loaded(tabs, e)->0;
    let r = active_region(tabs, e)->0;
    e.buffers[tabs.open[i].path].text.subrange(r.0, r.1)
}

/// Kills the region of the active tab: it goes to the kill ring and to the
/// clipboard, and the mark goes away. Tells whether there was one.
pub fn kill_region(
    tabs: &mut Tabs,
    edits: &mut BufferEdits,
    kill_ring: &mut KillRing,
    clip: &mut ClipboardState,
) -> (killed: bool)
    ensures
        killed == (active_region(old(tabs)@, old(edits)@) is Some),
        (final(tabs)@, final(edits)@) == buffers::with_active(
            old(tabs)@,
            old(edits)@,
            killing_region(),
        ),
        final(kill_ring)@ == if killed {
            KillView {
                latest: Some(region_text(old(tabs)@, old(edits)@)),
                last_was_kill_line: false,
            }
        } else {
            old(kill_ring)@
        },
        final(clip)@ == if killed {
            ClipView {
                pending_write: Some(region_text(old(tabs)@, old(edits)@)),
                ..old(clip)@
            }
        } else {
            old(clip)@
        },
        truth::all_truthful(old(edits)@) ==> truth::all_truthful(final(edits)@),
{
    let ghost e0 = edits@;
    match take_active(tabs, edits) {
        None => false,
        Some((i, tab, eb)) => {
            let mut tab = tab;
            let mut eb = eb;
            let path = tab.path.text.clone();
            let mut clock: u64 = edits.clock;
            let mut killed: bool = false;
            match region_range(&tab, &eb.rope) {
                None => {},
                Some((from, to)) => {
                    let gone = cut_range(&mut tab, &mut eb, &mut clock, from, to);
                    tab.mark = None;
                    kill_ring.latest = Some(gone.clone());
                    kill_ring.last_was_kill_line = false;
                    clip.pending_write = Some(gone);
                    killed = true;
                },
            }
            put_active(tabs, edits, i, path, tab, eb, clock);
            proof {
                buffers::lemma_take_put(e0, path@, eb@, clock);
                truth::lemma_kept(e0, path@, eb@, clock);
            }
            killed
        },
    }
}

/// What killing to the end of the line takes: the rest of the line, or at
/// its end the break. Nothing at the end of the text.
pub open spec fn kill_line_range(t: Seq<char>, c: Cursor) -> Option<(int, int)> {
    let line = columns::clamped_line(t, c.line as int);
    let from = columns::cursor_index(t, c);
    let end = text::line_start(t, line) + text::line_len(t, line);
    if from < end {
        Some((from, end))
    } else if line + 1 < text::line_count(t) {
        Some((from, text::line_end(t, line)))
    } else {
        None
    }
}

fn find_kill_line(rope: &ropey::Rope, c: &Cursor) -> (r: Option<(usize, usize)>)
    ensures
        r is Some <==> kill_line_range(text::rope_text(*rope), *c) is Some,
        r is Some ==> {
            let e = kill_line_range(text::rope_text(*rope), *c)->0;
            (r->0).0 == e.0 && (r->0).1 == e.1 && (r->0).0 <= (r->0).1 <= text::rope_text(
                *rope,
            ).len()
        },
{
    let ghost t = text::rope_text(*rope);
    let count: usize = rope_len_lines(rope);
    let total: usize = rope_len(rope);
    let line: usize = cursor_line(c, rope);
    let start: usize = rope_line_to_char(rope, line);
    let len: usize = line_char_len(rope, line);
    proof {
        text::lemma_line_len(t, line as int);
        text::lemma_line_start(t, line as int);
    }
    let from: usize = cursor_to_char(c, rope);
    let end: usize = start + len;
    if from < end {
        Some((from, end))
    } else if line < count - 1 {
        let stop: usize = rope_line_to_char(rope, line + 1);
        Some((from, stop))
    } else {
        None
    }
}

pub open spec fn killing_line() -> buffers::Change {
    |t: TabView, b: BufferView, c: u64|
        match kill_line_range(b.text, t.cursor) {
            Some((from, to)) => cut(t, b, c, from, to),
            None => (t, b, c),
        }
}

/// What killing to the end of the line would take in the active tab.
pub open spec fn line_to_kill(tabs: TabsView, e: EditsView) -> Option<Seq<char>> {
    match buffers::active_loaded(tabs, e) {
        Some(i) => {
            let b = e.buffers[tabs.open[i].path];
            match kill_line_range(b.text, tabs.open[i].cursor) {
                Some((from, to)) => Some(b.text.subrange(from, to)),
                None => None,
            }
        },
        None => None,
    }
}

/// The kill ring after a kill to the end of the line: kills of that kind
/// that follow each other add up.
pub open spec fn line_killed(k: KillView, gone: Seq<char>) -> KillView {
    KillView {
        latest: Some(
            if k.last_was_kill_line && k.latest is Some {
                k.latest->0 + gone
            } else {
                gone
            },
        ),
        last_was_kill_line: true,
    }
}

/// Kills from the cursor of the active tab to the end of the line.
pub fn kill_line(
    tabs: &mut Tabs,
    edits: &mut BufferEdits,
    kill_ring: &mut KillRing,
    clip: &mut ClipboardState,
)
    ensures
        (final(tabs)@, final(edits)@) == buffers::with_active(
            old(tabs)@,
            old(edits)@,
            killing_line(),
        ),
        final(kill_ring)@ == match line_to_kill(old(tabs)@, old(edits)@) {
            Some(gone) => line_killed(old(kill_ring)@, gone),
            None => old(kill_ring)@,
        },
        final(clip)@ == match line_to_kill(old(tabs)@, old(edits)@) {
            Some(gone) => ClipView {
                pending_write: line_killed(old(kill_ring)@, gone).latest,
                ..old(clip)@
            },
            None => old(clip)@,
        },
        truth::all_truthful(old(edits)@) ==> truth::all_truthful(final(edits)@),
{
    let ghost e0 = edits@;
    match take_active(tabs, edits) {
        None => {},
        Some((i, tab, eb)) => {
            let mut tab = tab;
            let mut eb = eb;
            let path = tab.path.text.clone();
            let mut clock: u64 = edits.clock;
            match find_kill_line(&eb.rope, &tab.cursor) {
                None => {},
                Some((from, to)) => {
                    let gone = cut_range(&mut tab, &mut eb, &mut clock, from, to);
                    let latest = match &kill_ring.latest {
                        Some(prev) => {
                            if kill_ring.last_was_kill_line {
                                let mut joined = prev.clone();
                                joined.push_str(gone.as_str());
                                joined
                            } else {
                                gone
                            }
                        },
                        None => gone,
                    };
                    clip.pending_write = Some(latest.clone());
                    kill_ring.latest = Some(latest);
                    kill_ring.last_was_kill_line = true;
                },
            }
            put_active(tabs, edits, i, path, tab, eb, clock);
            proof {
                buffers::lemma_take_put(e0, path@, eb@, clock);
                truth::lemma_kept(e0, path@, eb@, clock);
            }
        },
    }
}

/// Two kills to the end of the line in a row leave both pieces, in order,
/// in the kill ring.
pub proof fn consecutive_line_kills_join(k: KillView, first: Seq<char>, second: Seq<char>)
    requires
        !k.last_was_kill_line,
    ensures
        line_killed(line_killed(k, first), second).latest == Some(first + second),
{
}

// ---------------------------------------------------------------------
// Yanking
// ---------------------------------------------------------------------

/// The clipboard asked for its text, for the active tab, unless it is being
/// read already.
pub open spec fn yank_requested(tabs: TabsView, c: ClipView) -> ClipView {
    if tabs.active is Some && !c.read_in_flight {
        ClipView { pending_yank: tabs.active, ..c }
    } else {
        c
    }
}

/// Asks for the clipboard's text on behalf of the active tab.
pub fn request_yank(tabs: &Tabs, clip: &mut ClipboardState)
    ensures
        final(clip)@ == yank_requested(tabs@, old(clip)@),
{
    if let Some(id) = tabs.active {
        if clip.read_in_flight {
            return;
        }
        clip.pending_yank = Some(id);
    }
}

/// Text put in at the cursor, the cursor moved behind it. It then aims for
/// the cell it stands on.
pub open spec fn pasted(
    t: TabView,
    b: BufferView,
    clock: u64,
    put: Seq<char>,
    cols: int,
    w: Map<Seq<char>, usize>,
) -> (TabView, BufferView, u64) {
    let i = columns::cursor_index(b.text, t.cursor);
    let new_text = text::inserted(b.text, i, put);
    let after = cells::aimed(
        w,
        new_text,
        columns::index_cursor(new_text, i + put.len()),
        cols,
    );
    (
        edit::at_cursor(t, after),
        edit::edited(
            b,
            clock,
            new_text,
            seq![OpView::Insert { at: i, text: put }],
            t.cursor,
            after,
        ),
        edits::bumped(clock),
    )
}

/// What the arrival of the clipboard's text does.
pub open spec fn yanked(
    tabs: TabsView,
    e: EditsView,
    target: TabId,
    put: Seq<char>,
    cols: int,
    w: Map<Seq<char>, usize>,
) -> (TabsView, EditsView) {
    match tabs.find(target) {
        None => (tabs, e),
        Some(i) => {
            let t = tabs.open[i];
            if e.has(t.path) {
                let (t2, b2, c2) = pasted(t, e.buffers[t.path], e.clock, put, cols, w);
                (tabs.with_tab(i, t2), e.with_buffer(t.path, b2, c2))
            } else {
                (tabs, e)
            }
        },
    }
}

/// Puts text in at the cursor of the tab that asked for it. Nothing
/// happens when that tab is gone or its buffer is not loaded.
pub fn apply_yank(
    tabs: &mut Tabs,
    edits: &mut BufferEdits,
    target: TabId,
    put: &str,
    content_cols: usize,
    widths: &CellWidths,
)
    ensures
        (final(tabs)@, final(edits)@) == yanked(
            old(tabs)@,
            old(edits)@,
            target,
            put@,
            content_cols as int,
            widths@,
        ),
        truth::all_truthful(old(edits)@) ==> truth::all_truthful(final(edits)@),
{
    let ghost e0 = edits@;
    let idx: usize = match tabs.find(target) {
        Some(i) => i,
        None => {
            return;
        },
    };
    let mut tab = tabs.at(idx).copy();
    let path = tab.path.text.clone();
    let mut eb = match edits.take(path.as_str()) {
        Some(b) => b,
        None => {
            assert(e0.buffers.remove(path@) =~= e0.buffers);
            return;
        },
    };
    let ghost b0 = eb@;
    let before = tab.cursor;
    let i: usize = cursor_to_char(&tab.cursor, &eb.rope);
    let mut rope = rope_clone(&eb.rope);
    rope_insert(&mut rope, i, put);
    let total: usize = rope_len(&rope);
    let n: usize = put.unicode_len();
    let mut after = char_to_cursor(i + n, &rope);
    refresh_preferred_col(&mut after, &rope, content_cols, widths);
    bump(&mut eb, rope);
    tab.cursor = after;
    let seq: u64 = bump_u64(edits.clock);
    eb.history.record_insert(seq, i, put.to_owned(), before, after);
    put_active(tabs, edits, idx, path, tab, eb, seq);
    proof {
        buffers::lemma_take_put(e0, path@, eb@, seq);
        if truth::truthful(b0) {
            truth::lemma_insertion(b0.history, b0.text, seq, i as int, put@, before, after);
        }
        truth::lemma_kept(e0, path@, eb@, seq);
    }
}

// ---------------------------------------------------------------------
// Laws
// ---------------------------------------------------------------------

/// Killing the region takes the text between mark and cursor out, whichever
/// comes first, and keeps it for the clipboard; the mark goes away. Without
/// a mark, or with the mark at the cursor, nothing happens.
pub proof fn killing_takes_what_lies_between_mark_and_cursor(t: TabsView, e: EditsView, i: int)
    requires
        buffers::active_loaded(t, e) == Some(i),
        ({
            let text = e.buffers[t.open[i].path].text;
            &&& 0 <= columns::cursor_index(text, t.open[i].cursor) <= text.len()
            &&& t.open[i].mark matches Some(m) ==> 0 <= columns::cursor_index(text, m)
                <= text.len()
        }),
    ensures
        ({
            let (t2, e2) = buffers::with_active(t, e, killing_region());
            let tab = t.open[i];
            let b = e.buffers[tab.path];
            let b2 = e2.buffers[tab.path];
            let c = columns::cursor_index(b.text, tab.cursor);
            let m = columns::cursor_index(b.text, tab.mark->0);
            let a = if m < c { m } else { c };
            let z = if m < c { c } else { m };
            &&& tab.mark is None || m == c ==> t2 == t && b2 == b && active_region(t, e) is None
            &&& tab.mark is Some && m != c ==> {
                &&& active_region(t, e) is Some
                &&& region_text(t, e) == b.text.subrange(a, z)
                &&& b2.text == b.text.subrange(0, a) + b.text.subrange(z, b.text.len() as int)
                &&& t2.open[i] == (TabView {
                    mark: None,
                    cursor: columns::index_cursor(b2.text, a),
                    ..tab
                })
                &&& undo::buffer_undone(b2).text == b.text
                &&& b2.text.subrange(0, a) + region_text(t, e) + b2.text.subrange(
                    a,
                    b2.text.len() as int,
                ) == b.text
            }
            &&& buffers::only_there(t, e, t2, e2, i)
        }),
{
    buffers::a_change_is_made_in_the_active_tab(t, e, killing_region());
    let tab = t.open[i];
    let b = e.buffers[tab.path];
    let (t2, e2) = buffers::with_active(t, e, killing_region());
    match region(b.text, tab.mark, tab.cursor) {
        None => {
            assert(t2.open =~= t.open);
        },
        Some((a, z)) => {
            lemma_cut(tab, b, e.clock, a, z);
            let n = text::removed(b.text, a, z);
            assert(n.subrange(0, a) + b.text.subrange(a, z) + n.subrange(a, n.len() as int)
                =~= b.text);
        },
    }
}

proof fn lemma_cut(t: TabView, b: BufferView, clock: u64, a: int, z: int)
    requires
        0 <= a <= z <= b.text.len(),
    ensures
        undo::buffer_undone(cut(t, b, clock, a, z).1).text == b.text,
{
    let op = OpView::Delete { at: a, text: b.text.subrange(a, z) };
    edits::lemma_one_op(b.text, op);
    undo::undo_takes_back_a_recorded_edit(
        b,
        edits::bumped(clock),
        seq![op],
        t.cursor,
        columns::index_cursor(text::removed(b.text, a, z), a),
    );
    assert(edits::ops_applied(b.text, seq![op], 1) =~= text::removed(b.text, a, z));
}

/// Killing to the end of the line takes the rest of the line and leaves its
/// break; where nothing is left of the line it takes the break and so joins
/// the next line; at the end of the text it takes nothing. What went is what
/// is kept for the clipboard.
pub proof fn killing_a_line_stops_at_its_break(t: TabsView, e: EditsView, i: int)
    requires
        buffers::active_loaded(t, e) == Some(i),
        ({
            let text = e.buffers[t.open[i].path].text;
            let c = t.open[i].cursor;
            &&& c.line < text::line_count(text)
            &&& columns::clustered(text, c.line as int)
        }),
    ensures
        ({
            let (t2, e2) = buffers::with_active(t, e, killing_line());
            let tab = t.open[i];
            let b = e.buffers[tab.path];
            let b2 = e2.buffers[tab.path];
            let line = tab.cursor.line as int;
            let p = columns::cursor_index(b.text, tab.cursor);
            let end = text::line_start(b.text, line) + text::line_len(b.text, line);
            let stop = text::line_start(b.text, line + 1);
            let z = if p < end {
                end
            } else {
                stop
            };
            let none = p == end && line + 1 == text::line_count(b.text);
            &&& none ==> t2 == t && b2 == b && line_to_kill(t, e) is None
            &&& !none ==> {
                &&& 0 <= p <= z <= b.text.len()
                &&& line_to_kill(t, e) == Some(b.text.subrange(p, z))
                &&& b2.text == b.text.subrange(0, p) + b.text.subrange(z, b.text.len() as int)
                &&& t2.open[i] == (TabView { cursor: columns::index_cursor(b2.text, p), ..tab })
                &&& undo::buffer_undone(b2).text == b.text
            }
            &&& buffers::only_there(t, e, t2, e2, i)
        }),
{
    buffers::a_change_is_made_in_the_active_tab(t, e, killing_line());
    let tab = t.open[i];
    let b = e.buffers[tab.path];
    let line = tab.cursor.line as int;
    columns::a_column_counts_clusters(b.text, tab.cursor);
    text::lemma_line_len(b.text, line);
    text::lemma_line_start(b.text, line);
    let (t2, e2) = buffers::with_active(t, e, killing_line());
    match kill_line_range(b.text, tab.cursor) {
        None => {
            assert(t2.open =~= t.open);
        },
        Some((a, z)) => {
            lemma_cut(tab, b, e.clock, a, z);
        },
    }
}

/// A kill to the end of the line adds to the one before it, and starts anew
/// after anything else.
pub proof fn line_kills_add_up_or_start_anew(k: KillView, gone: Seq<char>)
    ensures
        line_killed(k, gone).last_was_kill_line,
        !k.last_was_kill_line ==> line_killed(k, gone).latest == Some(gone),
        k.latest is None ==> line_killed(k, gone).latest == Some(gone),
        k.last_was_kill_line && k.latest is Some ==> line_killed(k, gone).latest == Some(
            k.latest->0 + gone,
        ),
{
}

/// Yanked text comes to stand at the cursor of the tab that asked for it,
/// which need not be the active one, with the cursor behind it; nothing else
/// changes, and an undo takes it out again.
pub proof fn yanking_puts_the_text_at_the_cursor(
    t: TabsView,
    e: EditsView,
    target: TabId,
    put: Seq<char>,
    cols: int,
    w: Map<Seq<char>, usize>,
    i: int,
)
    requires
        t.find(target) == Some(i),
        e.has(t.open[i].path),
        ({
            let text = e.buffers[t.open[i].path].text;
            0 <= columns::cursor_index(text, t.open[i].cursor) <= text.len()
        }),
    ensures
        ({
            let (t2, e2) = yanked(t, e, target, put, cols, w);
            let tab = t.open[i];
            let b = e.buffers[tab.path];
            let b2 = e2.buffers[tab.path];
            let p = columns::cursor_index(b.text, tab.cursor);
            let after = columns::index_cursor(b2.text, p + put.len());
            &&& b2.text == b.text.subrange(0, p) + put + b.text.subrange(p, b.text.len() as int)
            &&& t2.open[i].cursor.line == after.line
            &&& t2.open[i].cursor.col == after.col
            &&& t2.open[i] == (TabView { cursor: t2.open[i].cursor, ..tab })
            &&& buffers::only_there(t, e, t2, e2, i)
            &&& undo::buffer_undone(b2).text == b.text
        }),
{
    crate::seqs::lemma_first_from(t.open, crate::tabs::by_id(target), 0);
    let tab = t.open[i];
    let b = e.buffers[tab.path];
    let p = columns::cursor_index(b.text, tab.cursor);
    let (t2, e2) = yanked(t, e, target, put, cols, w);
    assert(e2.buffers.dom() =~= e.buffers.dom());
    let op = OpView::Insert { at: p, text: put };
    edits::lemma_one_op(b.text, op);
    undo::undo_takes_back_a_recorded_edit(
        b,
        edits::bumped(e.clock),
        seq![op],
        tab.cursor,
        t2.open[i].cursor,
    );
    assert(edits::ops_applied(b.text, seq![op], 1) =~= text::inserted(b.text, p, put));
}

/// The mark is set where the cursor is, in the active tab alone, and taken
/// away there.
pub proof fn the_mark_is_set_at_the_cursor(t: TabsView, i: int)
    requires
        t.active_index() == Some(i),
    ensures
        marked(t, mark_here()).open[i] == (TabView {
            mark: Some(t.open[i].cursor),
            ..t.open[i]
        }),
        crate::tabs::others_kept(t, marked(t, mark_here()), i),
        marked(t, no_mark()).open[i] == (TabView { mark: None, ..t.open[i] }),
        crate::tabs::others_kept(t, marked(t, no_mark()), i),
{
    crate::seqs::lemma_first_from(t.open, crate::tabs::by_id(t.active->0), 0);
}

/// A yank asks for the clipboard on behalf of the active tab, unless one is
/// being read already.
pub proof fn a_yank_is_asked_for_the_active_tab(t: TabsView, c: ClipView)
    ensures
        t.active is Some && !c.read_in_flight ==> yank_requested(t, c).pending_yank == t.active,
        t.active is None || c.read_in_flight ==> yank_requested(t, c) == c,
        yank_requested(t, c).pending_write == c.pending_write,
        yank_requested(t, c).read_in_flight == c.read_in_flight,
{
}

} // verus!
