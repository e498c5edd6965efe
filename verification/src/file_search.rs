//! The overlay that searches through all files of the workspace.

use vstd::prelude::*;

use crate::browser;
use crate::browser::{BrowserUi, BrowserView, Focus};
use crate::buffers::{BufferEdits, EditsView};
use crate::columns::{Cursor, Scroll};
use crate::command::{Command, DispatchOutcome};
use crate::hits;
use crate::hits::{
    preview_scroll_top, tree_row_index_for_hit, tree_visible, FileSearchHit, FileSearchSelection,
    FileSearchState, HitView, SearchView,
};
use crate::input;
use crate::input::InputView;
use crate::paths::CanonPath;
use crate::replace_all;
use crate::replace_all::apply_replace_all;
use crate::replace_one;
use crate::replace_one::{replace_selected, unreplace_selected};
use crate::screen;
use crate::screen::{body_rows, Terminal};
use crate::tabs;
use crate::tabs::{open_or_focus_tab, TabId, TabView, Tabs, TabsView};
use crate::truth;
use crate::undo_global;
use crate::undo_global::{redo_global, undo_global};

verus! {

// ---------------------------------------------------------------------
// Opening and closing
// ---------------------------------------------------------------------

/// The overlay and the side panel after a request to open the overlay. One
/// that is open stays as it is.
pub open spec fn activated(s: Option<SearchView>, b: BrowserView, t: TabsView, e: EditsView) -> (
    Option<SearchView>,
    BrowserView,
) {
    match s {
        Some(_) => (s, b),
        None => (
            Some(
                SearchView {
                    previous_tab: t.active,
                    overlay_open_seq: e.clock,
                    ..hits::fresh()
                },
            ),
            BrowserView { visible: true, focus: Focus::Side, ..b },
        ),
    }
}

/// Opens the overlay in the side panel.
pub fn activate(
    file_search: &mut Option<FileSearchState>,
    browser: &mut BrowserUi,
    tabs: &Tabs,
    edits: &BufferEdits,
)
    ensures
        (hits::opt_view(*final(file_search)), final(browser)@) == activated(
            hits::opt_view(*old(file_search)),
            old(browser)@,
            tabs@,
            edits@,
        ),
{
    if file_search.is_some() {
        return;
    }
    let mut state = FileSearchState::new();
    state.previous_tab = tabs.active;
    state.overlay_open_seq = edits.clock;
    *file_search = Some(state);
    browser.visible = true;
    browser.focus = Focus::Side;
}

/// The tabs without the preview that the overlay left behind. The focus
/// goes to `restore_to` if that tab is still there.
pub open spec fn preview_closed(t: TabsView, restore_to: Option<TabId>) -> TabsView {
    match t.find_preview() {
        None => match restore_to {
            Some(p) => if t.find(p) is Some {
                TabsView { active: Some(p), ..t }
            } else {
                t
            },
            None => t,
        },
        Some(i) => {
            let rest = t.without(i);
            let fallback = if t.active == Some(t.open[i].id) {
                TabsView {
                    active: if rest.open.len() > 0 {
                        Some(rest.open[0].id)
                    } else {
                        None
                    },
                    ..rest
                }
            } else {
                rest
            };
            match restore_to {
                Some(p) => if rest.find(p) is Some {
                    TabsView { active: Some(p), ..rest }
                } else {
                    fallback
                },
                None => fallback,
            }
        },
    }
}

fn close_preview(tabs: &mut Tabs, restore_to: Option<TabId>)
    ensures
        final(tabs)@ == preview_closed(old(tabs)@, restore_to),
{
    match tabs.find_preview() {
        None => {
            if let Some(p) = restore_to {
                if tabs.find(p).is_some() {
                    tabs.active = Some(p);
                }
            }
        },
        Some(i) => {
            let id = tabs.at(i).id;
            tabs.remove(i);
            if let Some(p) = restore_to {
                if tabs.find(p).is_some() {
                    tabs.active = Some(p);
                    return;
                }
            }
            if let Some(a) = tabs.active {
                if a.0 == id.0 {
                    tabs.active = if tabs.len() > 0 {
                        Some(tabs.at(0).id)
                    } else {
                        None
                    };
                }
            }
        },
    }
}

/// The side panel and the tabs after the overlay was closed.
pub open spec fn deactivated(s: Option<SearchView>, b: BrowserView, t: TabsView) -> (
    BrowserView,
    TabsView,
) {
    (
        BrowserView { focus: Focus::Main, ..b },
        match s {
            Some(st) => preview_closed(t, st.previous_tab),
            None => t,
        },
    )
}

/// Closes the overlay and goes back to the tab from which it was opened.
pub fn deactivate(
    file_search: &mut Option<FileSearchState>,
    browser: &mut BrowserUi,
    tabs: &mut Tabs,
)
    ensures
        *final(file_search) is None,
        (final(browser)@, final(tabs)@) == deactivated(
            hits::opt_view(*old(file_search)),
            old(browser)@,
            old(tabs)@,
        ),
{
    if let Some(state) = file_search {
        close_preview(tabs, state.previous_tab);
    }
    *file_search = None;
    browser.focus = Focus::Main;
}

// ---------------------------------------------------------------------
// Showing a hit
// ---------------------------------------------------------------------

/// The tab with its cursor at a place and that place a third down.
pub open spec fn shown_at(t: TabView, line: int, col: int, rows: int) -> TabView {
    TabView {
        cursor: Cursor { line: line as usize, col: col as usize, preferred_col: col as usize },
        scroll: Scroll { top: hits::preview_top(line, rows) as usize, ..t.scroll },
        ..t
    }
}

/// The file of a hit shown, as a preview or for good.
pub open spec fn hit_shown(t: TabsView, hit: HitView, commit: bool, rows: int) -> TabsView {
    let o = tabs::opened(t, hit.path, commit);
    let col = if commit {
        hit.col0()
    } else {
        0
    };
    match o.active_index() {
        Some(i) => o.with_tab(i, shown_at(o.open[i], hit.line0(), col, rows)),
        None => o,
    }
}

fn show_hit(hit: &FileSearchHit, tabs: &mut Tabs, commit: bool, rows: usize)
    ensures
        final(tabs)@ == hit_shown(old(tabs)@, hit@, commit, rows as int),
{
    open_or_focus_tab(tabs, &hit.path, commit);
    if let Some(i) = tabs.active_index() {
        let line: usize = hit.line0();
        let col: usize = if commit {
            hit.col0()
        } else {
            0
        };
        let mut tab = tabs.at(i).copy();
        tab.cursor = Cursor { line, col, preferred_col: col };
        tab.scroll.top = preview_scroll_top(line, rows);
        tabs.set(i, tab);
    }
}

/// What Enter does: a selected hit is opened and the overlay closed; else
/// the first hit is shown.
pub open spec fn entered(s: SearchView, b: BrowserView, t: TabsView, rows: int) -> (
    Option<SearchView>,
    BrowserView,
    TabsView,
) {
    if s.flat_hits.len() == 0 {
        (Some(s), b, t)
    } else {
        match s.selection {
            FileSearchSelection::Result(i) if i < s.flat_hits.len() => {
                let t2 = hit_shown(t, s.flat_hits[i as int], true, rows);
                let (b3, t3) = deactivated(Some(SearchView { previous_tab: None, ..s }), b, t2);
                (None, b3, t3)
            },
            _ => (
                Some(SearchView { selection: FileSearchSelection::Result(0), ..s }),
                b,
                hit_shown(t, s.flat_hits[0], false, rows),
            ),
        }
    }
}

/// Handles Enter.
pub fn handle_enter(
    file_search: &mut Option<FileSearchState>,
    browser: &mut BrowserUi,
    tabs: &mut Tabs,
    rows: usize,
)
    ensures
        match hits::opt_view(*old(file_search)) {
            Some(s) => (
                hits::opt_view(*final(file_search)),
                final(browser)@,
                final(tabs)@,
            ) == entered(s, old(browser)@, old(tabs)@, rows as int),
            None => {
                &&& *final(file_search) is None
                &&& final(browser)@ == old(browser)@
                &&& final(tabs)@ == old(tabs)@
            },
        },
{
    let taken = file_search.take();
    let mut state = match taken {
        Some(s) => s,
        None => {
            return;
        },
    };
    let ghost s0 = state@;
    if state.flat_hits.len() == 0 {
        *file_search = Some(state);
        return;
    }
    if let FileSearchSelection::Result(i) = state.selection {
        if i < state.flat_hits.len() {
            assert(s0.flat_hits[i as int] == state.flat_hits[i as int]@);
            show_hit(&state.flat_hits[i], tabs, true, rows);
            state.previous_tab = None;
            *file_search = Some(state);
            deactivate(file_search, browser, tabs);
            return;
        }
    }
    state.selection = FileSearchSelection::Result(0);
    assert(s0.flat_hits[0] == state.flat_hits[0]@);
    show_hit(&state.flat_hits[0], tabs, false, rows);
    *file_search = Some(state);
}

// ---------------------------------------------------------------------
// Moving the selection
// ---------------------------------------------------------------------

/// How many rows lie before the first hit.
pub open spec fn input_rows(s: SearchView) -> int {
    if s.replace_mode {
        2
    } else {
        1
    }
}

/// The row of the selection.
pub open spec fn selection_row(s: SearchView) -> int {
    match s.selection {
        FileSearchSelection::SearchInput => 0,
        FileSearchSelection::ReplaceInput => 1,
        FileSearchSelection::Result(i) => input_rows(s) + i,
    }
}

/// What stands in a row.
pub open spec fn selection_at(s: SearchView, row: int) -> FileSearchSelection {
    if row == 0 {
        FileSearchSelection::SearchInput
    } else if s.replace_mode && row == 1 {
        FileSearchSelection::ReplaceInput
    } else {
        FileSearchSelection::Result((row - input_rows(s)) as usize)
    }
}

/// The list scrolled just as far as the selected hit needs.
pub open spec fn scroll_followed(s: SearchView, side_rows: int) -> SearchView {
    let visible = hits::tree_rows_visible(s, side_rows);
    match s.selection {
        FileSearchSelection::Result(i) => {
            let row = hits::tree_row(s.results, i as int);
            if visible == 0 {
                s
            } else if row < s.scroll_offset {
                SearchView { scroll_offset: row as usize, ..s }
            } else if row >= s.scroll_offset + visible {
                SearchView { scroll_offset: (row + 1 - visible) as usize, ..s }
            } else {
                s
            }
        },
        _ => s,
    }
}

/// What moving the selection does.
pub open spec fn selection_moved(s: SearchView, t: TabsView, delta: int, rows: int) -> (
    SearchView,
    TabsView,
) {
    let row = browser::stepped(
        selection_row(s),
        delta,
        input_rows(s) + s.flat_hits.len(),
    );
    let s2 = scroll_followed(SearchView { selection: selection_at(s, row), ..s }, rows);
    let t2 = match s2.selection {
        FileSearchSelection::Result(i) => if i < s.flat_hits.len() {
            hit_shown(t, s.flat_hits[i as int], false, rows)
        } else {
            t
        },
        _ => t,
    };
    (s2, t2)
}

fn clamp_scroll_to_selection(state: &mut FileSearchState, side_rows: usize)
    ensures
        final(state)@ == scroll_followed(old(state)@, side_rows as int),
{
    let visible: usize = tree_visible(state, side_rows);
    if visible == 0 {
        return;
    }
    if let FileSearchSelection::Result(i) = state.selection {
        let row: usize = tree_row_index_for_hit(&state.results, i);
        let off: usize = state.scroll_offset;
        if row < off {
            state.scroll_offset = row;
        } else if row - off >= visible {
            state.scroll_offset = row - (visible - 1);
        }
    }
}

/// Moves the selection by `delta` rows, as far as there are rows, and shows
/// the hit that it lands on.
pub fn move_selection(state: &mut FileSearchState, tabs: &mut Tabs, delta: i32, rows: usize)
    ensures
        (final(state)@, final(tabs)@) == selection_moved(
            old(state)@,
            old(tabs)@,
            delta as int,
            rows as int,
        ),
{
    let ghost s0 = state@;
    let base: i128 = if state.replace_mode {
        2
    } else {
        1
    };
    let current: i128 = match state.selection {
        FileSearchSelection::SearchInput => 0,
        FileSearchSelection::ReplaceInput => 1,
        FileSearchSelection::Result(i) => base + i as i128,
    };
    let total: i128 = base + state.flat_hits.len() as i128;
    let aim: i128 = current + delta as i128;
    let row: i128 = if aim < 0 {
        0
    } else if aim >= total {
        total - 1
    } else {
        aim
    };
    state.selection = if row == 0 {
        FileSearchSelection::SearchInput
    } else if state.replace_mode && row == 1 {
        FileSearchSelection::ReplaceInput
    } else {
        FileSearchSelection::Result((row - base) as usize)
    };
    assert(state@ == SearchView { selection: selection_at(s0, row as int), ..s0 });
    clamp_scroll_to_selection(state, rows);
    if let FileSearchSelection::Result(i) = state.selection {
        if i < state.flat_hits.len() {
            assert(s0.flat_hits[i as int] == state.flat_hits[i as int]@);
            show_hit(&state.flat_hits[i], tabs, false, rows);
        }
    }
}

/// After a move the selected hit is in view.
pub proof fn moving_keeps_hit_in_view(s: SearchView, t: TabsView, delta: int, rows: int)
    requires
        hits::tree_rows_visible(s, rows) > 0,
        rows <= usize::MAX,
    ensures
        ({
            let s2 = selection_moved(s, t, delta, rows).0;
            s2.selection matches FileSearchSelection::Result(i) ==> s2.scroll_offset
                <= hits::tree_row(s.results, i as int) < s2.scroll_offset + hits::tree_rows_visible(
                s,
                rows,
            )
        }),
{
    if let FileSearchSelection::Result(i) = selection_moved(s, t, delta, rows).0.selection {
        hits::lemma_tree_row(s.results, 0, i as int, 0, 0);
    }
}

// ---------------------------------------------------------------------
// Commands
// ---------------------------------------------------------------------

/// The input that typing goes to. On a hit it is the query.
pub open spec fn current_input(s: SearchView) -> InputView {
    if s.selection is ReplaceInput {
        s.replace
    } else {
        s.query
    }
}

pub open spec fn with_input(s: SearchView, i: InputView) -> SearchView {
    if s.selection is ReplaceInput {
        SearchView { replace: i, ..s }
    } else {
        SearchView { query: i, ..s }
    }
}

/// The state with its input edited. A query that was edited is searched
/// again.
pub open spec fn edited(s: SearchView, i: InputView) -> SearchView {
    if s.selection is ReplaceInput {
        with_input(s, i)
    } else {
        hits::queued(with_input(s, i))
    }
}

/// What the overlay works on.
#[verifier::ext_equal]
pub struct World {
    pub search: Option<SearchView>,
    pub browser: BrowserView,
    pub tabs: TabsView,
    pub edits: EditsView,
}

/// What a command does while the overlay is open.
pub open spec fn overlay(
    cmd: Command,
    st: SearchView,
    w: World,
    rows: int,
    root: Option<Seq<char>>,
) -> World {
    let i = current_input(st);
    let on_hit = st.selection is Result && st.replace_mode;
    match cmd {
        Command::InsertChar(c) => World { search: Some(edited(st, input::typed(i, c))), ..w },
        Command::DeleteBack => World { search: Some(edited(st, input::backspaced(i))), ..w },
        Command::DeleteForward => World { search: Some(edited(st, input::deleted(i))), ..w },
        Command::KillLine => World { search: Some(edited(st, input::killed(i))), ..w },
        Command::CursorLeft => if on_hit {
            let (s2, e2) = replace_one::unreplaced(st, w.tabs, w.edits);
            World { search: Some(s2), edits: e2, ..w }
        } else {
            World { search: Some(with_input(st, input::moved_left(i))), ..w }
        },
        Command::CursorRight => if on_hit {
            let (s2, e2) = replace_one::replaced(st, w.tabs, w.edits);
            World { search: Some(s2), edits: e2, ..w }
        } else {
            World { search: Some(with_input(st, input::moved_right(i))), ..w }
        },
        Command::CursorLineStart => World {
            search: Some(with_input(st, input::at_start(i))),
            ..w
        },
        Command::CursorLineEnd => World { search: Some(with_input(st, input::at_end(i))), ..w },
        Command::ToggleSearchCase => World {
            search: Some(
                hits::queued(SearchView { case_sensitive: !st.case_sensitive, ..st }),
            ),
            ..w
        },
        Command::ToggleSearchRegex => World {
            search: Some(hits::queued(SearchView { use_regex: !st.use_regex, ..st })),
            ..w
        },
        Command::ToggleSearchReplace => World {
            search: Some(SearchView { replace_mode: !st.replace_mode, ..st }),
            ..w
        },
        Command::CursorDown => {
            let (s2, t2) = selection_moved(st, w.tabs, 1, rows);
            World { search: Some(s2), tabs: t2, ..w }
        },
        Command::CursorUp => {
            let (s2, t2) = selection_moved(st, w.tabs, -1, rows);
            World { search: Some(s2), tabs: t2, ..w }
        },
        Command::InsertNewline => {
            let (s2, b2, t2) = entered(st, w.browser, w.tabs, rows);
            World { search: s2, browser: b2, tabs: t2, ..w }
        },
        Command::Abort | Command::CloseFileSearch => {
            let (b2, t2) = deactivated(w.search, w.browser, w.tabs);
            World { search: None, browser: b2, tabs: t2, ..w }
        },
        Command::Undo => {
            let (t2, e2, s2) = undo_global::stepped(
                w.tabs,
                w.edits,
                w.search,
                st.overlay_open_seq,
                rows,
                false,
            );
            World { search: s2, tabs: t2, edits: e2, ..w }
        },
        Command::Redo => {
            let (t2, e2, s2) = undo_global::stepped(
                w.tabs,
                w.edits,
                w.search,
                st.overlay_open_seq,
                rows,
                true,
            );
            World { search: s2, tabs: t2, edits: e2, ..w }
        },
        Command::ReplaceAll => if st.replace_mode {
            let e2 = replace_all::all_replaced(st, w.tabs, w.edits, root);
            let (b2, t2) = deactivated(w.search, w.browser, w.tabs);
            World { search: None, browser: b2, tabs: t2, edits: e2 }
        } else {
            w
        },
        _ => w,
    }
}

/// A command that makes no history untrue. Those that might are the
/// replacing of a hit that is no longer there, the taking back of a
/// replacement that is no longer there, and replacing everything.
pub open spec fn honest(cmd: Command, st: SearchView, e: EditsView) -> bool {
    st.replace_mode ==> match cmd {
        Command::CursorLeft => replace_one::replacement_stands(st, e),
        Command::CursorRight => replace_one::hit_stands(st, e),
        Command::ReplaceAll => replace_all::all_blank(e),
        _ => true,
    }
}

/// How an input was edited.
#[derive(Clone, Copy, Debug, PartialEq, Eq, Structural)]
pub enum InputEdit {
    Type(char),
    Back,
    Forward,
    Kill,
    Left,
    Right,
    Start,
    End,
}

pub open spec fn input_after(i: InputView, how: InputEdit) -> InputView {
    match how {
        InputEdit::Type(c) => input::typed(i, c),
        InputEdit::Back => input::backspaced(i),
        InputEdit::Forward => input::deleted(i),
        InputEdit::Kill => input::killed(i),
        InputEdit::Left => input::moved_left(i),
        InputEdit::Right => input::moved_right(i),
        InputEdit::Start => input::at_start(i),
        InputEdit::End => input::at_end(i),
    }
}

fn change_input(i: &mut input::TextInput, how: InputEdit)
    ensures
        final(i)@ == input_after(old(i)@, how),
{
    match how {
        InputEdit::Type(c) => i.insert_char(c),
        InputEdit::Back => {
            i.delete_back();
        },
        InputEdit::Forward => {
            i.delete_forward();
        },
        InputEdit::Kill => {
            i.kill_to_end();
        },
        InputEdit::Left => i.move_left(),
        InputEdit::Right => i.move_right(),
        InputEdit::Start => i.to_line_start(),
        InputEdit::End => i.to_line_end(),
    }
}

fn edit_input(state: &mut FileSearchState, how: InputEdit, research: bool)
    ensures
        final(state)@ == (if research {
            edited(old(state)@, input_after(current_input(old(state)@), how))
        } else {
            with_input(old(state)@, input_after(current_input(old(state)@), how))
        }),
{
    match state.selection {
        FileSearchSelection::ReplaceInput => change_input(&mut state.replace, how),
        _ => {
            change_input(&mut state.query, how);
            if research {
                state.queue_search();
            }
        },
    }
}

/// Routes a command through the overlay, if it is open. Only quitting is
/// left to others.
pub fn run_overlay_command(
    cmd: Command,
    file_search: &mut Option<FileSearchState>,
    browser: &mut BrowserUi,
    tabs: &mut Tabs,
    edits: &mut BufferEdits,
    terminal: &Terminal,
    fs_root: &Option<CanonPath>,
) -> (r: Option<DispatchOutcome>)
    ensures
        ({
            let w = World {
                search: hits::opt_view(*old(file_search)),
                browser: old(browser)@,
                tabs: old(tabs)@,
                edits: old(edits)@,
            };
            let w2 = World {
                search: hits::opt_view(*final(file_search)),
                browser: final(browser)@,
                tabs: final(tabs)@,
                edits: final(edits)@,
            };
            match w.search {
                Some(st) => w2 == overlay(
                    cmd,
                    st,
                    w,
                    screen::body_rows_of(*terminal),
                    browser::opt_path(*fs_root),
                ),
                None => w2 == w,
            }
        }),
        r is Some <==> *old(file_search) is Some && !(cmd is Quit),
        r is Some ==> r->0 is Continue,
        truth::all_truthful(old(edits)@) && (hits::opt_view(*old(file_search)) matches Some(st)
            ==> honest(cmd, st, old(edits)@)) ==> truth::all_truthful(final(edits)@),
{
    let rows: usize = body_rows(terminal);
    let taken = file_search.take();
    let mut state = match taken {
        Some(s) => s,
        None => {
            return None;
        },
    };
    let ghost s0 = state@;
    match cmd {
        Command::InsertChar(c) => edit_input(&mut state, InputEdit::Type(c), true),
        Command::DeleteBack => edit_input(&mut state, InputEdit::Back, true),
        Command::DeleteForward => edit_input(&mut state, InputEdit::Forward, true),
        Command::KillLine => edit_input(&mut state, InputEdit::Kill, true),
        Command::CursorLeft => {
            if let FileSearchSelection::Result(_) = state.selection {
                if state.replace_mode {
                    unreplace_selected(&mut state, tabs, edits);
                } else {
                    edit_input(&mut state, InputEdit::Left, false);
                }
            } else {
                edit_input(&mut state, InputEdit::Left, false);
            }
        },
        Command::CursorRight => {
            if let FileSearchSelection::Result(_) = state.selection {
                if state.replace_mode {
                    replace_selected(&mut state, tabs, edits);
                } else {
                    edit_input(&mut state, InputEdit::Right, false);
                }
            } else {
                edit_input(&mut state, InputEdit::Right, false);
            }
        },
        Command::CursorLineStart => edit_input(&mut state, InputEdit::Start, false),
        Command::CursorLineEnd => edit_input(&mut state, InputEdit::End, false),
        Command::ToggleSearchCase => {
            state.case_sensitive = !state.case_sensitive;
            state.queue_search();
        },
        Command::ToggleSearchRegex => {
            state.use_regex = !state.use_regex;
            state.queue_search();
        },
        Command::ToggleSearchReplace => {
            state.replace_mode = !state.replace_mode;
        },
        Command::CursorDown => move_selection(&mut state, tabs, 1, rows),
        Command::CursorUp => move_selection(&mut state, tabs, -1, rows),
        Command::InsertNewline => {
            *file_search = Some(state);
            handle_enter(file_search, browser, tabs, rows);
            return Some(DispatchOutcome::Continue);
        },
        Command::Abort | Command::CloseFileSearch => {
            *file_search = Some(state);
            deactivate(file_search, browser, tabs);
            return Some(DispatchOutcome::Continue);
        },
        Command::Undo => {
            let floor: u64 = state.overlay_open_seq;
            *file_search = Some(state);
            undo_global(tabs, edits, file_search, floor, rows);
            return Some(DispatchOutcome::Continue);
        },
        Command::Redo => {
            let floor: u64 = state.overlay_open_seq;
            *file_search = Some(state);
            redo_global(tabs, edits, file_search, floor, rows);
            return Some(DispatchOutcome::Continue);
        },
        Command::ReplaceAll => {
            if state.replace_mode {
                let ghost e0 = edits@;
                apply_replace_all(&state, tabs, edits, fs_root);
                proof {
                    if truth::all_truthful(e0) && replace_all::all_blank(e0) {
                        assert forall|p: Seq<char>| #[trigger] edits@.has(p) implies truth::truthful(
                            edits@.buffers[p],
                        ) by {
                            assert(e0.has(p));
                        }
                    }
                }
                *file_search = Some(state);
                deactivate(file_search, browser, tabs);
                return Some(DispatchOutcome::Continue);
            }
        },
        Command::Quit => {
            *file_search = Some(state);
            return None;
        },
        _ => {},
    }
    *file_search = Some(state);
    Some(DispatchOutcome::Continue)
}

/// Typing in the overlay never changes a buffer.
pub proof fn typing_leaves_buffers_alone(
    c: char,
    st: SearchView,
    w: World,
    rows: int,
    root: Option<Seq<char>>,
)
    ensures
        overlay(Command::InsertChar(c), st, w, rows, root).edits == w.edits,
        overlay(Command::DeleteBack, st, w, rows, root).edits == w.edits,
        overlay(Command::InsertNewline, st, w, rows, root).edits == w.edits,
{
}

// ---------------------------------------------------------------------
// Laws
// ---------------------------------------------------------------------

/// Opening the search remembers where it was opened and goes to the side
/// panel; leaving it, without a preview left, gives the focus back to that
/// tab and removes nothing.
pub proof fn leaving_returns_to_where_the_search_was_opened(b: BrowserView, t: TabsView, e: EditsView)
    requires
        t.active matches Some(id) && t.find(id) is Some,
        t.find_preview() is None,
    ensures
        ({
            let (s, b2) = activated(None, b, t, e);
            &&& s is Some
            &&& s->0.previous_tab == t.active
            &&& s->0.overlay_open_seq == e.clock
            &&& s->0.query.text().len() == 0
            &&& s->0.flat_hits.len() == 0
            &&& s->0.selection is SearchInput
            &&& b2.visible
            &&& b2.focus is Side
            &&& deactivated(s, b2, t).1 == t
            &&& deactivated(s, b2, t).0.focus is Main
        }),
{
}

/// Leaving the search closes the preview that it showed and no other tab,
/// and the focus goes back to the tab that had it, if that is still there.
pub proof fn leaving_closes_the_preview(s: SearchView, b: BrowserView, t: TabsView, i: int)
    requires
        t.find_preview() == Some(i),
    ensures
        ({
            let (b2, t2) = deactivated(Some(s), b, t);
            let back = s.previous_tab;
            let there = back is Some && exists|k: int|
                0 <= k < t2.open.len() && (#[trigger] t2.open[k]).id == back->0;
            &&& t2.open == t.open.remove(i)
            &&& there ==> t2.active == back
            &&& !there && t.active != Some(t.open[i].id) ==> t2.active == t.active
            &&& !there && t.active == Some(t.open[i].id) && t2.open.len() > 0 ==> t2.active == Some(
                t2.open[0].id,
            )
            &&& b2 == (BrowserView { focus: Focus::Main, ..b })
        }),
{
    let rest = t.without(i);
    crate::seqs::lemma_first_from(t.open, tabs::is_preview(), 0);
    if let Some(id) = s.previous_tab {
        crate::seqs::lemma_first_from(rest.open, tabs::by_id(id), 0);
        if rest.find(id) is Some {
            let k = rest.find(id)->0;
            assert(tabs::by_id(id)(rest.open[k]));
            assert(deactivated(Some(s), b, t).1.open[k].id == id);
        } else {
            let t2 = deactivated(Some(s), b, t).1;
            assert forall|k: int| 0 <= k < t2.open.len() implies (#[trigger] t2.open[k]).id
                != id by {
                assert(!tabs::by_id(id)(rest.open[k]));
            }
        }
    }
}

/// Showing a hit opens its file, as a preview or for good, with the cursor
/// on the line of the hit, and at its column if it was chosen for good.
pub proof fn a_hit_is_shown_at_its_place(t: TabsView, hit: HitView, commit: bool, rows: int, i: int)
    requires
        tabs::opened(t, hit.path, commit).active_index() == Some(i),
        rows >= 0,
    ensures
        ({
            let o = tabs::opened(t, hit.path, commit);
            let t2 = hit_shown(t, hit, commit, rows);
            let u = t2.open[i];
            &&& tabs::others_kept(o, t2, i)
            &&& u.path == o.open[i].path
            &&& u.preview == o.open[i].preview
            &&& hit.line > 0 ==> u.cursor.line == hit.line - 1
            &&& hit.line == 0 ==> u.cursor.line == 0
            &&& !commit ==> u.cursor.col == 0
            &&& commit && hit.col > 0 ==> u.cursor.col == hit.col - 1
            &&& commit && hit.col == 0 ==> u.cursor.col == 0
            &&& u.cursor.preferred_col == u.cursor.col
            &&& rows > 0 ==> u.scroll.top <= u.cursor.line < u.scroll.top + rows
        }),
{
    let o = tabs::opened(t, hit.path, commit);
    crate::seqs::lemma_first_from(o.open, tabs::by_id(o.active->0), 0);
}

/// Enter on a hit opens it for good and leaves the search, staying there;
/// elsewhere it selects and previews the first hit, if there is one.
pub proof fn enter_opens_the_selected_hit(s: SearchView, b: BrowserView, t: TabsView, rows: int)
    ensures
        ({
            let (s2, b2, t2) = entered(s, b, t, rows);
            let n = s.flat_hits.len();
            &&& n == 0 ==> s2 == Some(s) && b2 == b && t2 == t
            &&& s.selection matches FileSearchSelection::Result(i) ==> i < n ==> {
                let shown = hit_shown(t, s.flat_hits[i as int], true, rows);
                &&& s2 is None
                &&& b2.focus is Main
                &&& shown.find_preview() is None ==> t2 == shown
            }
            &&& n > 0 && !(s.selection is Result) ==> {
                &&& s2 is Some
                &&& s2->0.selection == FileSearchSelection::Result(0)
                &&& s2->0.flat_hits == s.flat_hits
                &&& b2 == b
                &&& t2 == hit_shown(t, s.flat_hits[0], false, rows)
            }
        }),
{
}

/// Down goes from the query to the replacement, if there is one, to the
/// first hit and on to the next; up goes back; at the ends it stays. A hit
/// that is reached is shown.
pub proof fn the_selection_moves_by_one(s: SearchView, t: TabsView, rows: int)
    requires
        s.flat_hits.len() < usize::MAX - 2,
        s.selection matches FileSearchSelection::Result(i) ==> i < s.flat_hits.len(),
        s.selection is ReplaceInput ==> s.replace_mode,
    ensures
        ({
            let n = s.flat_hits.len();
            let (d, td) = selection_moved(s, t, 1, rows);
            let (u, tu) = selection_moved(s, t, -1, rows);
            &&& s.selection is SearchInput && s.replace_mode ==> d.selection is ReplaceInput && td
                == t
            &&& s.selection is SearchInput && !s.replace_mode && n > 0 ==> d.selection
                == FileSearchSelection::Result(0) && td == hit_shown(t, s.flat_hits[0], false, rows)
            &&& s.selection is ReplaceInput && n > 0 ==> d.selection
                == FileSearchSelection::Result(0)
            &&& s.selection matches FileSearchSelection::Result(i) ==> (i + 1 < n ==> d.selection
                == FileSearchSelection::Result((i + 1) as usize) && td == hit_shown(
                t,
                s.flat_hits[i + 1],
                false,
                rows,
            )) && (i + 1 == n ==> d.selection == s.selection) && (i > 0 ==> u.selection
                == FileSearchSelection::Result((i - 1) as usize) && tu == hit_shown(
                t,
                s.flat_hits[i - 1],
                false,
                rows,
            )) && (i == 0 && s.replace_mode ==> u.selection is ReplaceInput) && (i == 0
                && !s.replace_mode ==> u.selection is SearchInput)
            &&& s.selection is ReplaceInput ==> u.selection is SearchInput
            &&& s.selection is SearchInput ==> u.selection is SearchInput && tu == t
            &&& d.flat_hits == s.flat_hits
            &&& d.query == s.query
            &&& d.replace == s.replace
            &&& d.hit_replacements == s.hit_replacements
        }),
{
}

/// Typing goes to the query, and asks for the new one, or to the
/// replacement, which asks for nothing.
pub proof fn typing_goes_to_the_selected_input(st: SearchView, w: World, rows: int, root: Option<Seq<char>>, c: char)
    ensures
        ({
            let s2 = overlay(Command::InsertChar(c), st, w, rows, root).search;
            &&& s2 is Some
            &&& st.selection is ReplaceInput ==> {
                &&& s2->0.replace.before == st.replace.before.push(c)
                &&& s2->0.replace.after == st.replace.after
                &&& s2->0.query == st.query
                &&& s2->0.pending_search == st.pending_search
            }
            &&& !(st.selection is ReplaceInput) ==> {
                &&& s2->0.query.before == st.query.before.push(c)
                &&& s2->0.query.after == st.query.after
                &&& s2->0.replace == st.replace
                &&& s2->0.pending_search.len() == st.pending_search.len() + 1
                &&& s2->0.pending_search.last().query == st.query.before.push(c) + st.query.after
            }
        }),
{
}

/// The switches flip: for the case and for patterns a new search is asked
/// for with the switch as it is then, for replacing none is.
pub proof fn switches_flip(st: SearchView, w: World, rows: int, root: Option<Seq<char>>)
    ensures
        ({
            let a = overlay(Command::ToggleSearchCase, st, w, rows, root).search->0;
            let b = overlay(Command::ToggleSearchRegex, st, w, rows, root).search->0;
            let c = overlay(Command::ToggleSearchReplace, st, w, rows, root).search->0;
            &&& a.case_sensitive == !st.case_sensitive
            &&& a.use_regex == st.use_regex
            &&& a.pending_search.len() == st.pending_search.len() + 1
            &&& a.pending_search.last().case_sensitive == !st.case_sensitive
            &&& b.use_regex == !st.use_regex
            &&& b.case_sensitive == st.case_sensitive
            &&& b.pending_search.len() == st.pending_search.len() + 1
            &&& b.pending_search.last().use_regex == !st.use_regex
            &&& c == (SearchView { replace_mode: !st.replace_mode, ..st })
        }),
{
}

/// On a hit while replacing, right replaces it and left takes that back;
/// elsewhere both move in the input and change no text.
pub proof fn right_replaces_and_left_takes_back(st: SearchView, w: World, rows: int, root: Option<Seq<char>>)
    ensures
        ({
            let r = overlay(Command::CursorRight, st, w, rows, root);
            let l = overlay(Command::CursorLeft, st, w, rows, root);
            &&& st.selection is Result && st.replace_mode ==> (r.search->0, r.edits)
                == replace_one::replaced(st, w.tabs, w.edits) && (l.search->0, l.edits)
                == replace_one::unreplaced(st, w.tabs, w.edits)
            &&& !(st.selection is Result && st.replace_mode) ==> r.edits == w.edits && l.edits
                == w.edits && r.search->0.query.text() =~= st.query.text()
                && l.search->0.query.text() =~= st.query.text()
            &&& r.tabs == w.tabs
            &&& l.tabs == w.tabs
        }),
{
    input::moving_keeps_text(st.query);
    input::moving_keeps_text(st.replace);
}

/// The list of hits scrolls no further than the selected hit needs: not at
/// all while that is in view, and else until it is the first or the last row
/// shown.
pub proof fn the_list_scrolls_no_further_than_needed(s: SearchView, side_rows: int, i: usize)
    requires
        s.selection == FileSearchSelection::Result(i),
        0 < hits::tree_rows_visible(s, side_rows) <= usize::MAX,
    ensures
        ({
            let s2 = scroll_followed(s, side_rows);
            let row = hits::tree_row(s.results, i as int);
            let n = hits::tree_rows_visible(s, side_rows);
            &&& s.scroll_offset <= row < s.scroll_offset + n ==> s2 == s
            &&& row < s.scroll_offset ==> s2.scroll_offset == row
            &&& row >= s.scroll_offset + n ==> s2.scroll_offset + n == row + 1
            &&& s2.selection == s.selection
        }),
{
    hits::lemma_tree_row(s.results, 0, i as int, 0, 0);
}

} // verus!
