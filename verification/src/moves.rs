//! Moving the cursor of the active tab.

use vstd::prelude::*;

use crate::buffers;
use crate::buffers::{BufferEdits, EditsView};
use crate::cells;
use crate::cells::{refresh_preferred_col, CellWidths};
use crate::cursor;
use crate::cursor::{adjust_scroll, apply_move, Move};
use crate::screen;
use crate::screen::{body_rows, editor_content_cols, Terminal};
use crate::store::BufferStore;
use crate::tabs::{Tab, TabView, Tabs, TabsView};
use crate::text;

verus! {

/// The text of a file: that of its buffer, else as it was loaded.
pub open spec fn shown_text(
    e: EditsView,
    store: Map<Seq<char>, Seq<char>>,
    path: Seq<char>,
) -> Option<Seq<char>> {
    if e.has(path) {
        Some(e.buffers[path].text)
    } else if store.dom().contains(path) {
        Some(store[path])
    } else {
        None
    }
}

/// A tab with its cursor moved, and the view following it.
pub open spec fn tab_moved(
    tab: TabView,
    t: Seq<char>,
    term: Terminal,
    side_visible: bool,
    m: Move,
) -> TabView {
    let rows = screen::body_rows_of(term);
    let cols = screen::content_cols_of(term, side_visible);
    let c = cursor::moved(t, tab.cursor, m, rows, cols);
    TabView { cursor: c, scroll: cursor::scrolled(tab.scroll, c, rows, t, cols), ..tab }
}

/// The tabs with the cursor of the active one moved.
pub open spec fn cursor_moved(
    tabs: TabsView,
    e: EditsView,
    store: Map<Seq<char>, Seq<char>>,
    term: Terminal,
    side_visible: bool,
    m: Move,
) -> TabsView {
    match tabs.active_index() {
        None => tabs,
        Some(i) => match shown_text(e, store, tabs.open[i].path) {
            None => tabs,
            Some(t) => tabs.with_tab(i, tab_moved(tabs.open[i], t, term, side_visible, m)),
        },
    }
}

fn move_in(tab: &mut Tab, rope: &ropey::Rope, terminal: &Terminal, side_visible: bool, m: Move)
    ensures
        final(tab)@ == tab_moved(
            old(tab)@,
            text::rope_text(*rope),
            *terminal,
            side_visible,
            m,
        ),
{
    let rows: usize = body_rows(terminal);
    let cols: usize = editor_content_cols(terminal, side_visible);
    tab.cursor = apply_move(tab.cursor, rope, m, rows, cols);
    tab.scroll = adjust_scroll(tab.scroll, tab.cursor, rows, rope, cols);
}

/// Moves the cursor of the active tab.
pub fn move_cursor(
    tabs: &mut Tabs,
    edits: &BufferEdits,
    store: &BufferStore,
    terminal: &Terminal,
    side_visible: bool,
    m: Move,
)
    ensures
        final(tabs)@ == cursor_moved(
            old(tabs)@,
            edits@,
            store.texts(),
            *terminal,
            side_visible,
            m,
        ),
{
    let i: usize = match tabs.active_index() {
        Some(i) => i,
        None => {
            return;
        },
    };
    let mut tab = tabs.at(i).copy();
    let path = tab.path.text.clone();
    match edits.get(path.as_str()) {
        Some(eb) => move_in(&mut tab, &eb.rope, terminal, side_visible, m),
        None => match store.ready(path.as_str()) {
            Some(rope) => move_in(&mut tab, rope, terminal, side_visible, m),
            None => {
                return;
            },
        },
    }
    tabs.set(i, tab);
}

/// The tabs with the active cursor aiming for the cell it stands on.
pub open spec fn active_aimed(
    tabs: TabsView,
    e: EditsView,
    term: Terminal,
    side_visible: bool,
    w: Map<Seq<char>, usize>,
) -> TabsView {
    match buffers::active_loaded(tabs, e) {
        None => tabs,
        Some(i) => tabs.with_tab(
            i,
            TabView {
                cursor: cells::aimed(
                    w,
                    e.buffers[tabs.open[i].path].text,
                    tabs.open[i].cursor,
                    screen::content_cols_of(term, side_visible),
                ),
                ..tabs.open[i]
            },
        ),
    }
}

/// Makes the active cursor aim for the cell it stands on, after an edit.
pub fn refresh_active_preferred_col(
    tabs: &mut Tabs,
    edits: &BufferEdits,
    terminal: &Terminal,
    side_visible: bool,
    widths: &CellWidths,
)
    ensures
        final(tabs)@ == active_aimed(old(tabs)@, edits@, *terminal, side_visible, widths@),
{
    let i: usize = match tabs.active_index() {
        Some(i) => i,
        None => {
            return;
        },
    };
    let mut tab = tabs.at(i).copy();
    let path = tab.path.text.clone();
    if let Some(eb) = edits.get(path.as_str()) {
        let cols: usize = editor_content_cols(terminal, side_visible);
        refresh_preferred_col(&mut tab.cursor, &eb.rope, cols, widths);
        tabs.set(i, tab);
    }
}

// ---------------------------------------------------------------------
// Laws
// ---------------------------------------------------------------------

/// A move goes by the text of the buffer, or before it is edited by the text
/// that was loaded; only the cursor and the view of the active tab change,
/// and without a text nothing does.
pub proof fn moves_go_by_the_text_that_is_shown(
    tabs: TabsView,
    e: EditsView,
    store: Map<Seq<char>, Seq<char>>,
    term: Terminal,
    side_visible: bool,
    m: Move,
    i: int,
)
    requires
        tabs.active_index() == Some(i),
    ensures
        ({
            let t2 = cursor_moved(tabs, e, store, term, side_visible, m);
            let t = tabs.open[i];
            let u = t2.open[i];
            let rows = screen::body_rows_of(term);
            let cols = screen::content_cols_of(term, side_visible);
            &&& crate::tabs::others_kept(tabs, t2, i)
            &&& u == (TabView { cursor: u.cursor, scroll: u.scroll, ..t })
            &&& e.has(t.path) ==> u.cursor == cursor::moved(
                e.buffers[t.path].text,
                t.cursor,
                m,
                rows,
                cols,
            ) && u.scroll == cursor::scrolled(
                t.scroll,
                u.cursor,
                rows,
                e.buffers[t.path].text,
                cols,
            )
            &&& !e.has(t.path) && store.dom().contains(t.path) ==> u.cursor == cursor::moved(
                store[t.path],
                t.cursor,
                m,
                rows,
                cols,
            ) && u.scroll == cursor::scrolled(t.scroll, u.cursor, rows, store[t.path], cols)
            &&& !e.has(t.path) && !store.dom().contains(t.path) ==> t2 == tabs
        }),
{
    crate::seqs::lemma_first_from(tabs.open, crate::tabs::by_id(tabs.active->0), 0);
}

} // verus!
